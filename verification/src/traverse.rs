//! Reading a tree of clusters: instances, names, depths and subtrees.

use vstd::prelude::*;
use crate::cluster::{run, Cluster, Index};
use crate::dataset::VecDataset;
use crate::helpers::Lfd;
use crate::metric::Metric;

verus! {

impl Cluster {
    /// What holds of the shape of a subtree, whatever the dataset: names
    /// grow by one bit from parent to child, a parent's instances are those
    /// of its children, and only a parent is without instances of its own.
    pub open spec fn shape_ok(&self) -> bool
        decreases self,
    {
        &&& self.history.wf()
        &&& self.cardinality == self.members().len()
        &&& self.index is Offset ==> self.index->Offset_0 + self.cardinality <= usize::MAX
        &&& match self.children {
            None => !(self.index is Empty),
            Some(c) => {
                &&& self.members() == c.left.members() + c.right.members()
                &&& c.left.bits() == self.bits().push(false)
                &&& c.right.bits() == self.bits().push(true)
                &&& c.left.shape_ok()
                &&& c.right.shape_ok()
            },
        }
    }

    /// A sound subtree has a sound shape.
    pub proof fn lemma_wf_shape<T: Sync, M: Metric<T> + Sync>(&self, data: &VecDataset<T, M>)
        requires
            data.wf(),
            self.wf(data),
        ensures
            self.shape_ok(),
        decreases self,
    {
        if let Some(c) = self.children {
            c.left.lemma_wf_shape(data);
            c.right.lemma_wf_shape(data);
        }
    }

    /// The depth of the cluster: the number of turns from the root.
    pub open spec fn depth_of(&self) -> nat {
        (self.bits().len() - 1) as nat
    }

    /// The clusters of the subtree: this one, then those under the left
    /// child, then those under the right child.
    pub open spec fn preorder(&self) -> Seq<&Cluster>
        decreases self,
    {
        match self.children {
            Some(c) => seq![self] + c.left.preorder() + c.right.preorder(),
            None => seq![self],
        }
    }

    /// The greatest depth of any cluster of the subtree.
    pub open spec fn deepest(&self) -> nat
        decreases self,
    {
        match self.children {
            Some(c) => if c.left.deepest() >= c.right.deepest() {
                c.left.deepest()
            } else {
                c.right.deepest()
            },
            None => self.depth_of(),
        }
    }

    /// The subtree has as many clusters as its preorder lists.
    pub proof fn lemma_preorder_len(&self)
        ensures
            self.preorder().len() == self.size(),
        decreases self,
    {
        if let Some(c) = self.children {
            c.left.lemma_preorder_len();
            c.right.lemma_preorder_len();
        }
    }

    /// Every cluster of the subtree has a name that starts with the name of
    /// the cluster at the top, and that is longer but for that cluster
    /// itself.
    pub proof fn lemma_names_extend(&self, k: int)
        requires
            self.shape_ok(),
            0 <= k < self.preorder().len(),
        ensures
            self.preorder()[k].bits().len() >= self.bits().len(),
            self.preorder()[k].bits().take(self.bits().len() as int) == self.bits(),
            k > 0 ==> self.preorder()[k].bits().len() > self.bits().len(),
            k == 0 ==> self.preorder()[k] == self,
        decreases self,
    {
        let n = self.bits().len() as int;
        if k == 0 {
            assert(self.bits().take(n) =~= self.bits());
        } else {
            let c = self.children->Some_0;
            let left = c.left.preorder();
            let below: &Cluster = self.preorder()[k];
            let top: &Cluster = if k <= left.len() {
                &c.left
            } else {
                &c.right
            };
            if k <= left.len() {
                assert(below == left[k - 1]);
                c.left.lemma_names_extend(k - 1);
            } else {
                assert(below == c.right.preorder()[k - 1 - left.len()]);
                c.right.lemma_names_extend(k - 1 - left.len());
            }
            assert(below.bits().take(n) =~= below.bits().take(n + 1).take(n));
            assert(top.bits().take(n) =~= self.bits());
        }
    }

    /// No two clusters of a tree have the same name.
    pub proof fn lemma_names_differ(&self, i: int, j: int)
        requires
            self.shape_ok(),
            0 <= i < j < self.preorder().len(),
        ensures
            self.preorder()[i].bits() != self.preorder()[j].bits(),
        decreases self,
    {
        let n = self.bits().len() as int;
        self.lemma_names_extend(i);
        self.lemma_names_extend(j);
        if i > 0 {
            let c = self.children->Some_0;
            let left = c.left.preorder();
            let right = c.right.preorder();
            if j <= left.len() {
                assert(self.preorder()[i] == left[i - 1]);
                assert(self.preorder()[j] == left[j - 1]);
                c.left.lemma_names_differ(i - 1, j - 1);
            } else if i > left.len() {
                assert(self.preorder()[i] == right[i - 1 - left.len()]);
                assert(self.preorder()[j] == right[j - 1 - left.len()]);
                c.right.lemma_names_differ(i - 1 - left.len(), j - 1 - left.len());
            } else {
                let a: &Cluster = self.preorder()[i];
                let b: &Cluster = self.preorder()[j];
                assert(a == left[i - 1]);
                assert(b == right[j - 1 - left.len()]);
                c.left.lemma_names_extend(i - 1);
                c.right.lemma_names_extend(j - 1 - left.len());
                assert(a.bits().take(n + 1)[n] == c.left.bits()[n]);
                assert(b.bits().take(n + 1)[n] == c.right.bits()[n]);
            }
        }
    }

    /// The number of instances.
    pub fn cardinality(&self) -> (n: usize)
        ensures
            n == self.cardinality,
    {
        self.cardinality
    }

    /// The position of the instance at the center.
    pub fn arg_center(&self) -> (i: usize)
        ensures
            i == self.arg_center,
    {
        self.arg_center
    }

    /// The position of the instance farthest from the center.
    pub fn arg_radius(&self) -> (i: usize)
        ensures
            i == self.arg_radius,
    {
        self.arg_radius
    }

    /// The distance from the center to the instance farthest from it.
    pub fn radius(&self) -> (r: u64)
        ensures
            r == self.radius,
    {
        self.radius
    }

    /// Whether all instances coincide with the center: one instance, or
    /// several at distance zero.
    pub fn is_singleton(&self) -> (res: bool)
        ensures
            res == (self.radius == 0),
    {
        self.radius == 0
    }

    /// The local fractal dimension, as the two counts whose ratio it is the
    /// binary logarithm of.
    pub fn lfd(&self) -> (lfd: Lfd)
        ensures
            lfd == self.lfd,
    {
        self.lfd
    }

    /// The distance between the two poles, if the cluster has children.
    pub fn polar_distance(&self) -> (res: Option<u64>)
        ensures
            res == (match self.children {
                Some(c) => Some(c.polar_distance),
                None => None,
            }),
    {
        match &self.children {
            Some(c) => Some(c.polar_distance),
            None => None,
        }
    }

    /// The left and the right child, if the cluster has children.
    pub fn children(&self) -> (res: Option<(&Cluster, &Cluster)>)
        ensures
            res is Some <==> self.children is Some,
            res is Some ==> *res->Some_0.0 == self.children->Some_0.left && *res->Some_0.1
                == self.children->Some_0.right,
    {
        match &self.children {
            Some(c) => Some((&c.left, &c.right)),
            None => None,
        }
    }

    /// Whether the cluster has no children.
    pub fn is_leaf(&self) -> (res: bool)
        ensures
            res == self.children is None,
    {
        self.children.is_none()
    }

    /// The turns from the root to this cluster, a leading `true` for the
    /// root itself.
    pub fn history(&self) -> (res: Vec<bool>)
        ensures
            res@ == self.bits(),
    {
        self.history.to_vec()
    }

    /// The number of turns from the root to this cluster.
    pub fn depth(&self) -> (d: usize)
        requires
            self.history.wf(),
        ensures
            d == self.depth_of(),
    {
        self.history.len() - 1
    }

    /// Whether the cluster is the root of its tree.
    pub fn is_root(&self) -> (res: bool)
        requires
            self.history.wf(),
        ensures
            res == (self.depth_of() == 0),
    {
        self.depth() == 0
    }

    /// Whether `other` lies in the subtree under this cluster, and is not
    /// this cluster: whether this name is a proper prefix of the other.
    pub fn is_ancestor_of(&self, other: &Cluster) -> (res: bool)
        ensures
            res == (self.bits().len() < other.bits().len() && other.bits().take(
                self.bits().len() as int,
            ) == self.bits()),
    {
        let n = self.history.len();
        if n >= other.history.len() {
            return false;
        }
        let mut i: usize = 0;
        while i < n
            invariant
                n == self.bits().len(),
                n < other.bits().len(),
                i <= n,
                other.bits().take(i as int) == self.bits().take(i as int),
            decreases n - i,
        {
            if self.history.bit(i) != other.history.bit(i) {
                proof {
                    assert(other.bits().take(n as int)[i as int] != self.bits()[i as int]);
                }
                return false;
            }
            proof {
                assert(other.bits().take(i as int + 1) =~= other.bits().take(i as int).push(
                    other.bits()[i as int],
                ));
                assert(self.bits().take(i as int + 1) =~= self.bits().take(i as int).push(
                    self.bits()[i as int],
                ));
            }
            i += 1;
        }
        proof {
            assert(self.bits().take(n as int) =~= self.bits());
        }
        true
    }

    /// Whether this cluster lies in the subtree under `other`, and is not
    /// `other`.
    pub fn is_descendant_of(&self, other: &Cluster) -> (res: bool)
        ensures
            res == (other.bits().len() < self.bits().len() && self.bits().take(
                other.bits().len() as int,
            ) == other.bits()),
    {
        other.is_ancestor_of(self)
    }

    /// Appends the instances of the cluster to `out`.
    fn collect_indices(&self, out: &mut Vec<usize>)
        requires
            self.shape_ok(),
        ensures
            final(out)@ == old(out)@ + self.members(),
        decreases self,
    {
        match &self.index {
            Index::Indices(v) => {
                let mut k: usize = 0;
                while k < v.len()
                    invariant
                        k <= v@.len(),
                        out@ == old(out)@ + v@.take(k as int),
                    decreases v@.len() - k,
                {
                    out.push(v[k]);
                    proof {
                        assert(v@.take(k as int + 1) =~= v@.take(k as int).push(v@[k as int]));
                        assert(old(out)@ + v@.take(k as int + 1) =~= (old(out)@ + v@.take(
                            k as int,
                        )).push(v@[k as int]));
                    }
                    k += 1;
                }
                proof {
                    assert(v@.take(k as int) =~= v@);
                }
            },
            Index::Offset(o) => {
                let mut k: usize = 0;
                while k < self.cardinality
                    invariant
                        *o + self.cardinality <= usize::MAX,
                        k <= self.cardinality,
                        out@ == old(out)@ + run(*o, k),
                    decreases self.cardinality - k,
                {
                    out.push(*o + k);
                    proof {
                        assert(old(out)@ + run(*o, (k + 1) as usize) =~= (old(out)@ + run(
                            *o,
                            k,
                        )).push((*o + k) as usize));
                    }
                    k += 1;
                }
            },
            Index::Empty => {
                match &self.children {
                    Some(c) => {
                        c.left.collect_indices(out);
                        c.right.collect_indices(out);
                        proof {
                            assert(old(out)@ + (c.left.members() + c.right.members()) =~= (old(
                                out,
                            )@ + c.left.members()) + c.right.members());
                        }
                    },
                    None => {},
                }
            },
        }
    }

    /// The positions of the instances of the cluster. A leaf holds them, a
    /// reordered cluster holds a run of positions, and for a parent that was
    /// not reordered they are gathered from its leaves, left to right.
    pub fn indices(&self) -> (res: Vec<usize>)
        requires
            self.shape_ok(),
        ensures
            res@ == self.members(),
    {
        let mut out: Vec<usize> = Vec::with_capacity(self.cardinality);
        self.collect_indices(&mut out);
        proof {
            assert(Seq::<usize>::empty() + self.members() =~= self.members());
        }
        out
    }

    /// The positions held by the leaves of the subtree, left to right:
    /// the order in which a depth-first reordering lays the instances out.
    /// `None` where the tree was reordered already.
    pub fn leaf_indices(&self) -> (res: Option<Vec<usize>>)
        requires
            self.shape_ok(),
        ensures
            res is None <==> self.index is Offset,
            res is Some ==> res->Some_0@ == self.members(),
    {
        match &self.index {
            Index::Offset(_) => None,
            _ => Some(self.indices()),
        }
    }

    /// Appends the clusters of the subtree to `out`, in preorder.
    fn collect_subtree<'a>(&'a self, out: &mut Vec<&'a Cluster>)
        ensures
            final(out)@ == old(out)@ + self.preorder(),
        decreases self,
    {
        out.push(self);
        match &self.children {
            Some(c) => {
                c.left.collect_subtree(out);
                c.right.collect_subtree(out);
                proof {
                    assert(old(out)@ + (seq![self] + c.left.preorder() + c.right.preorder())
                        =~= old(out)@.push(self) + c.left.preorder() + c.right.preorder());
                }
            },
            None => {
                proof {
                    assert(old(out)@ + seq![self] =~= old(out)@.push(self));
                }
            },
        }
    }

    /// The clusters of the subtree: this one, then those under the left
    /// child, then those under the right child.
    pub fn subtree(&self) -> (res: Vec<&Cluster>)
        ensures
            res@ == self.preorder(),
            res@.len() == self.size(),
    {
        let mut out: Vec<&Cluster> = Vec::new();
        self.collect_subtree(&mut out);
        proof {
            assert(Seq::<&Cluster>::empty() + self.preorder() =~= self.preorder());
            self.lemma_preorder_len();
        }
        out
    }

    /// The number of clusters under this one.
    pub fn num_descendants(&self) -> (n: usize)
        ensures
            n == self.size() - 1,
    {
        proof {
            self.lemma_preorder_len();
        }
        self.subtree().len() - 1
    }

    /// The greatest depth of any cluster of the subtree.
    pub fn max_leaf_depth(&self) -> (d: usize)
        requires
            self.shape_ok(),
        ensures
            d == self.deepest(),
            d >= self.depth_of(),
        decreases self,
    {
        match &self.children {
            Some(c) => {
                let l = c.left.max_leaf_depth();
                let r = c.right.max_leaf_depth();
                if l >= r {
                    l
                } else {
                    r
                }
            },
            None => self.depth(),
        }
    }

    /// The distance from the center to the instance at position `index`.
    pub fn distance_to_indexed_instance<T: Sync, M: Metric<T> + Sync>(
        &self,
        data: &VecDataset<T, M>,
        index: usize,
    ) -> (d: u64)
        requires
            data.wf(),
            index < data.len(),
            self.arg_center < data.len(),
        ensures
            d == data.dist(index as int, self.arg_center as int),
    {
        data.one_to_one(index, self.arg_center)
    }

    /// The distance from `instance` to the center.
    pub fn distance_to_instance<T: Sync, M: Metric<T> + Sync>(
        &self,
        data: &VecDataset<T, M>,
        instance: &T,
    ) -> (d: u64)
        requires
            data.wf(),
            self.arg_center < data.len(),
        ensures
            d == data.qdist(instance, self.arg_center as int),
    {
        data.query_to_one(instance, self.arg_center)
    }

    /// The distance from the center of this cluster to the center of
    /// `other`.
    pub fn distance_to_other<T: Sync, M: Metric<T> + Sync>(
        &self,
        data: &VecDataset<T, M>,
        other: &Cluster,
    ) -> (d: u64)
        requires
            data.wf(),
            self.arg_center < data.len(),
            other.arg_center < data.len(),
        ensures
            d == data.dist(self.arg_center as int, other.arg_center as int),
    {
        data.one_to_one(self.arg_center, other.arg_center)
    }
}

} // verus!
