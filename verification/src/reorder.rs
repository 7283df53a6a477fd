//! Laying a partitioned tree out depth first: afterwards every cluster holds
//! a run of consecutive positions.

use vstd::prelude::*;
use crate::cluster::{run, Children, Cluster, Index};
use crate::dataset::VecDataset;
use crate::metric::Metric;

verus! {

/// `after` is `before` with its instances laid out anew: position `k` holds
/// what was at position `p[k]`, and the dataset remembers where each
/// instance went.
pub open spec fn is_laid_out<T: Sync, M: Metric<T> + Sync>(
    before: &VecDataset<T, M>,
    after: &VecDataset<T, M>,
    p: Seq<usize>,
) -> bool {
    &&& before.wf()
    &&& after.wf()
    &&& after.len() == before.len()
    &&& after.metric == before.metric
    &&& p.len() == before.len()
    &&& p.no_duplicates()
    &&& forall|k: int|
        0 <= k < p.len() ==> {
            &&& (#[trigger] p[k]) < before.len()
            &&& after.instance(k) == before.instance(p[k] as int)
            &&& after.reordered_index(p[k] as int) == k
        }
}

impl Cluster {
    /// This cluster is `before` after a reordering that put its first
    /// instance at position `offset`: it holds the run of positions that
    /// starts there, its center, its farthest instance and its poles are
    /// where the dataset says they went, and the same holds of its children,
    /// the left child starting where the parent starts and the right child
    /// following it.
    pub open spec fn is_reordering_of<T: Sync, M: Metric<T> + Sync>(
        &self,
        before: &Cluster,
        data: &VecDataset<T, M>,
        offset: usize,
    ) -> bool
        decreases self,
    {
        &&& self.index == Index::Offset(offset)
        &&& self.history == before.history
        &&& self.cardinality == before.cardinality
        &&& self.radius == before.radius
        &&& self.lfd == before.lfd
        &&& self.seed == before.seed
        &&& self.built == before.built
        &&& self.arg_center == data.reordered_index(before.arg_center as int)
        &&& self.arg_radius == data.reordered_index(before.arg_radius as int)
        &&& match self.children {
            None => before.children is None,
            Some(c) => {
                &&& before.children is Some
                &&& c.left_pole == data.reordered_index(before.children->Some_0.left_pole as int)
                &&& c.right_pole == data.reordered_index(
                    before.children->Some_0.right_pole as int,
                )
                &&& c.polar_distance == before.children->Some_0.polar_distance
                &&& c.left.is_reordering_of(&before.children->Some_0.left, data, offset)
                &&& c.right.is_reordering_of(
                    &before.children->Some_0.right,
                    data,
                    (offset + before.children->Some_0.left.cardinality) as usize,
                )
            },
        }
    }

    /// Every cluster of the subtree holds, position by position, the
    /// instances that the matching cluster of `before` held in the dataset
    /// `old`.
    pub open spec fn holds_instances_of<T: Sync, M: Metric<T> + Sync>(
        &self,
        before: &Cluster,
        data: &VecDataset<T, M>,
        old: &VecDataset<T, M>,
    ) -> bool
        decreases self,
    {
        &&& self.members().len() == before.members().len()
        &&& forall|j: int|
            0 <= j < self.members().len() ==> data.instance(#[trigger] self.members()[j] as int)
                == old.instance(before.members()[j] as int)
        &&& match self.children {
            None => true,
            Some(c) => {
                &&& before.children is Some
                &&& c.left.holds_instances_of(&before.children->Some_0.left, data, old)
                &&& c.right.holds_instances_of(&before.children->Some_0.right, data, old)
            },
        }
    }

    /// The instances at the given positions, in their order.
    pub open spec fn instances_at<T: Sync, M: Metric<T> + Sync>(
        data: &VecDataset<T, M>,
        positions: Seq<usize>,
    ) -> Seq<T> {
        Seq::new(positions.len(), |j: int| data.instance(positions[j] as int))
    }

    /// A reordered cluster holds the instances that it held before, each as
    /// often as before.
    pub proof fn lemma_same_instances<T: Sync, M: Metric<T> + Sync>(
        &self,
        before: &Cluster,
        data: &VecDataset<T, M>,
        old: &VecDataset<T, M>,
    )
        requires
            self.holds_instances_of(before, data, old),
        ensures
            Self::instances_at(data, self.members()) == Self::instances_at(old, before.members()),
            Self::instances_at(data, self.members()).to_multiset() == Self::instances_at(
                old,
                before.members(),
            ).to_multiset(),
    {
        assert(Self::instances_at(data, self.members()) =~= Self::instances_at(
            old,
            before.members(),
        ));
    }

    /// Distances between instances survive a new layout.
    pub proof fn lemma_laid_out_dist<T: Sync, M: Metric<T> + Sync>(
        old: &VecDataset<T, M>,
        data: &VecDataset<T, M>,
        p: Seq<usize>,
        i: int,
        j: int,
    )
        requires
            is_laid_out(old, data, p),
            0 <= i < p.len(),
            0 <= j < p.len(),
        ensures
            data.dist(i, j) == old.dist(p[i] as int, p[j] as int),
            data.reordered_index(p[i] as int) == i,
            data.reordered_index(p[j] as int) == j,
    {
        assert(data.instance(i) == old.instance(p[i] as int));
        assert(data.instance(j) == old.instance(p[j] as int));
    }

    /// This cluster stands to `before` as a cluster that was moved to the
    /// run of positions that starts at `offset` stands to what it was, its
    /// children left aside.
    pub open spec fn is_moved_node<T: Sync, M: Metric<T> + Sync>(
        &self,
        before: &Cluster,
        data: &VecDataset<T, M>,
        offset: usize,
    ) -> bool {
        &&& self.index == Index::Offset(offset)
        &&& self.history == before.history
        &&& self.cardinality == before.cardinality
        &&& self.radius == before.radius
        &&& self.lfd == before.lfd
        &&& self.seed == before.seed
        &&& self.built == before.built
        &&& self.arg_center == data.reordered_index(before.arg_center as int)
        &&& self.arg_radius == data.reordered_index(before.arg_radius as int)
    }

    /// A cluster that was moved to a run of positions is sound by itself.
    pub proof fn lemma_moved_node_ok<T: Sync, M: Metric<T> + Sync>(
        &self,
        before: &Cluster,
        old: &VecDataset<T, M>,
        data: &VecDataset<T, M>,
        p: Seq<usize>,
        offset: usize,
    )
        requires
            is_laid_out(old, data, p),
            before.node_ok(old),
            offset + before.cardinality <= p.len(),
            before.members() == p.subrange(offset as int, offset + before.cardinality),
            self.is_moved_node(before, data, offset),
        ensures
            self.node_ok(data),
            self.members() == run(offset, before.cardinality),
            forall|j: int|
                0 <= j < self.members().len() ==> data.instance(
                    #[trigger] self.members()[j] as int,
                ) == old.instance(before.members()[j] as int),
    {
        let m = before.members();
        let rm = self.members();
        let n = before.cardinality;
        assert(rm == run(offset, n));
        assert forall|j: int| 0 <= j < n implies rm[j] == offset + j && m[j] == p[offset + j]
            && data.reordered_index(m[j] as int) == offset + j && data.instance(offset + j)
            == old.instance(m[j] as int) by {}
        let ci = choose|i: int| 0 <= i < m.len() && m[i] == before.arg_center;
        let ri = choose|i: int| 0 <= i < m.len() && m[i] == before.arg_radius;
        assert(rm[ci] == self.arg_center);
        assert(rm[ri] == self.arg_radius);
        Self::lemma_laid_out_dist(old, data, p, offset + ci, offset + ri);
        assert forall|k: int| 0 <= k < rm.len() implies data.dist(
            self.arg_center as int,
            #[trigger] rm[k] as int,
        ) <= self.radius by {
            Self::lemma_laid_out_dist(old, data, p, offset + ci, offset + k);
            assert(old.dist(before.arg_center as int, m[k] as int) <= before.radius);
        }
    }

    /// A parent that was moved to a run of positions stands to its moved
    /// children as a split leaves them.
    pub proof fn lemma_moved_split_ok<T: Sync, M: Metric<T> + Sync>(
        &self,
        before: &Cluster,
        old: &VecDataset<T, M>,
        data: &VecDataset<T, M>,
        p: Seq<usize>,
        offset: usize,
    )
        requires
            is_laid_out(old, data, p),
            before.node_ok(old),
            before.children is Some,
            before.split_ok(&*before.children->Some_0, old),
            offset + before.cardinality <= p.len(),
            before.members() == p.subrange(offset as int, offset + before.cardinality),
            self.is_moved_node(before, data, offset),
            self.children is Some,
            ({
                let c = before.children->Some_0;
                let rc = self.children->Some_0;
                &&& c.left.cardinality == c.left.members().len()
                &&& c.right.cardinality == c.right.members().len()
                &&& rc.left_pole == data.reordered_index(c.left_pole as int)
                &&& rc.right_pole == data.reordered_index(c.right_pole as int)
                &&& rc.polar_distance == c.polar_distance
                &&& rc.left.members() == run(offset, c.left.cardinality)
                &&& rc.right.members() == run(
                    (offset + c.left.cardinality) as usize,
                    c.right.cardinality,
                )
                &&& rc.left.history == c.left.history
                &&& rc.right.history == c.right.history
                &&& rc.left.seed == c.left.seed
                &&& rc.right.seed == c.right.seed
                &&& rc.left.cardinality == c.left.cardinality
                &&& rc.right.cardinality == c.right.cardinality
            }),
        ensures
            self.split_ok(&*self.children->Some_0, data),
    {
        let c = before.children->Some_0;
        let rc = self.children->Some_0;
        let m = before.members();
        let rm = self.members();
        let n = before.cardinality;
        let lm = c.left.members();
        let rgm = c.right.members();
        let nl = rc.left.members();
        let nr = rc.right.members();
        assert(m == lm + rgm);
        assert(rm == run(offset, n));
        assert(rm =~= nl + nr);
        assert forall|j: int| 0 <= j < n implies rm[j] == offset + j && m[j] == p[offset + j]
            && data.reordered_index(m[j] as int) == offset + j by {}
        let ri = choose|i: int| 0 <= i < m.len() && m[i] == before.arg_radius;
        let li = choose|i: int| 0 <= i < lm.len() && lm[i] == c.left_pole;
        let rpi = choose|i: int| 0 <= i < rgm.len() && rgm[i] == c.right_pole;
        assert(m[li] == c.left_pole);
        assert(m[lm.len() + rpi] == c.right_pole);
        assert(nl[li] == rc.left_pole);
        assert(nr[rpi] == rc.right_pole);
        let a = before.arg_radius;
        let b = if c.left_pole == a {
            c.right_pole
        } else {
            c.left_pole
        };
        let na = self.arg_radius;
        let nb = if rc.left_pole == na {
            rc.right_pole
        } else {
            rc.left_pole
        };
        let ai: int = ri;
        let bi: int = if c.left_pole == a {
            lm.len() + rpi
        } else {
            li
        };
        assert(m[ai] == a && m[bi] == b);
        assert(rc.left_pole == na <==> c.left_pole == a);
        assert(rc.right_pole == na <==> c.right_pole == a);
        assert(rm[ai] == na && rm[bi] == nb);
        Self::lemma_laid_out_dist(old, data, p, offset + ai, offset + bi);
        assert forall|k: int| 0 <= k < rm.len() implies data.dist(
            na as int,
            #[trigger] rm[k] as int,
        ) <= rc.polar_distance by {
            Self::lemma_laid_out_dist(old, data, p, offset + ai, offset + k);
            assert(old.dist(a as int, m[k] as int) <= c.polar_distance);
        }
        if c.left_pole == a {
            assert forall|k: int| 0 <= k < nl.len() implies Self::sides_with_first(
                data,
                na,
                nb,
                #[trigger] nl[k],
            ) by {
                Self::lemma_laid_out_dist(old, data, p, offset + ai, offset + k);
                Self::lemma_laid_out_dist(old, data, p, offset + bi, offset + k);
                assert(m[k] == lm[k]);
                assert(Self::sides_with_first(old, a, b, lm[k]));
            }
            assert forall|k: int| 0 <= k < nr.len() implies Self::sides_with_second(
                data,
                na,
                nb,
                #[trigger] nr[k],
            ) by {
                Self::lemma_laid_out_dist(old, data, p, offset + ai, offset + lm.len() + k);
                Self::lemma_laid_out_dist(old, data, p, offset + bi, offset + lm.len() + k);
                assert(m[lm.len() + k] == rgm[k]);
                assert(Self::sides_with_second(old, a, b, rgm[k]));
            }
        } else {
            assert forall|k: int| 0 <= k < nl.len() implies Self::sides_with_second(
                data,
                na,
                nb,
                #[trigger] nl[k],
            ) by {
                Self::lemma_laid_out_dist(old, data, p, offset + ai, offset + k);
                Self::lemma_laid_out_dist(old, data, p, offset + bi, offset + k);
                assert(m[k] == lm[k]);
                assert(Self::sides_with_second(old, a, b, lm[k]));
            }
            assert forall|k: int| 0 <= k < nr.len() implies Self::sides_with_first(
                data,
                na,
                nb,
                #[trigger] nr[k],
            ) by {
                Self::lemma_laid_out_dist(old, data, p, offset + ai, offset + lm.len() + k);
                Self::lemma_laid_out_dist(old, data, p, offset + bi, offset + lm.len() + k);
                assert(m[lm.len() + k] == rgm[k]);
                assert(Self::sides_with_first(old, a, b, rgm[k]));
            }
        }
    }

    /// Renumbers the subtree for a dataset that was laid out anew by `p`:
    /// the cluster takes the run of positions that starts at `offset`.
    pub(crate) fn dfr<T: Sync, M: Metric<T> + Sync>(
        self,
        data: &VecDataset<T, M>,
        offset: usize,
        Ghost(old): Ghost<&VecDataset<T, M>>,
        Ghost(p): Ghost<Seq<usize>>,
    ) -> (res: Cluster)
        requires
            is_laid_out(old, data, p),
            self.wf(old),
            !(self.index is Offset),
            offset + self.cardinality <= p.len(),
            self.members() == p.subrange(offset as int, offset + self.cardinality),
        ensures
            res.wf(data),
            res.is_reordering_of(&self, data, offset),
            res.holds_instances_of(&self, data, old),
            res.members() == run(offset, self.cardinality),
        decreases self,
    {
        let ghost before = self;
        let ghost m = self.members();
        proof {
            before.lemma_center_in_range(old);
            if before.children is Some {
                let c = before.children->Some_0;
                assert(before.split_ok(&*c, old));
                assert(c.left.wf(old) && c.right.wf(old));
                let lm = c.left.members();
                let rm = c.right.members();
                assert(m == lm + rm);
                assert(lm =~= p.subrange(offset as int, offset + c.left.cardinality)) by {
                    assert forall|j: int| 0 <= j < lm.len() implies lm[j] == p[offset + j] by {
                        assert(m[j] == lm[j]);
                    }
                }
                assert(rm =~= p.subrange(
                    offset + c.left.cardinality,
                    offset + c.left.cardinality + c.right.cardinality,
                )) by {
                    assert forall|j: int| 0 <= j < rm.len() implies rm[j] == p[offset
                        + c.left.cardinality + j] by {
                        assert(m[lm.len() + j] == rm[j]);
                    }
                }
                let li = choose|i: int| 0 <= i < lm.len() && lm[i] == c.left_pole;
                let ri = choose|i: int| 0 <= i < rm.len() && rm[i] == c.right_pole;
                assert(lm[li] < old.len() && rm[ri] < old.len());
            }
        }
        let Cluster {
            history,
            cardinality,
            arg_center,
            arg_radius,
            radius,
            lfd,
            seed,
            built,
            index,
            children,
        } = self;
        let new_center = data.get_reordered_index(arg_center);
        let new_radius = data.get_reordered_index(arg_radius);
        let new_children = match children {
            None => None,
            Some(boxed) => {
                let Children { left_pole, left, right_pole, right, polar_distance } = *boxed;
                let left_cardinality = left.cardinality;
                let new_left_pole = data.get_reordered_index(left_pole);
                let new_right_pole = data.get_reordered_index(right_pole);
                let new_left = left.dfr(data, offset, Ghost(old), Ghost(p));
                let new_right = right.dfr(
                    data,
                    offset + left_cardinality,
                    Ghost(old),
                    Ghost(p),
                );
                Some(
                    Box::new(
                        Children {
                            left_pole: new_left_pole,
                            left: new_left,
                            right_pole: new_right_pole,
                            right: new_right,
                            polar_distance,
                        },
                    ),
                )
            },
        };
        let res = Cluster {
            history,
            cardinality,
            arg_center: new_center,
            arg_radius: new_radius,
            radius,
            lfd,
            seed,
            built,
            index: Index::Offset(offset),
            children: new_children,
        };
        proof {
            res.lemma_moved_node_ok(&before, old, data, p, offset);
            if before.children is Some {
                res.lemma_moved_split_ok(&before, old, data, p, offset);
            }
        }
        res
    }
}

} // verus!
