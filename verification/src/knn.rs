//! Nearest-neighbour search: the `k` instances nearest to a query.

use vstd::prelude::*;
use crate::clustered::search;
use crate::counting::indices_of;
use crate::error::ClamError;
use crate::helpers::{compute_lfd, lfd_of, Lfd};
use crate::metric::Metric;
use crate::nearest::{is_nearest_of, is_ordered, is_tie_cut, lemma_rearranged, nearest_of};
use crate::sieve::sieve;
use crate::tree::Tree;

verus! {

/// How a nearest-neighbour search goes about it.
#[derive(Clone, Copy, Debug, PartialEq, Eq, Structural)]
pub enum Algorithm {
    /// Measures the distance to every instance.
    Linear,
    /// Searches a ball round the query, and a larger one until it holds
    /// enough.
    RepeatedRnn,
    /// Opens the clusters nearest first, and stops when no closed one can
    /// hold a nearer instance.
    Sieve,
}

/// What one round of the repeated range search comes to.
pub enum Step {
    /// The ball held enough: these are the nearest.
    Done(Vec<(usize, u64)>),
    /// The ball held too little: so many hits, with the local fractal
    /// dimension of their distances at the scale of the radius. The radius
    /// has to grow.
    Grow {
        /// How many instances the ball held.
        hits: usize,
        /// The local fractal dimension of their distances.
        lfd: Lfd,
    },
}

/// The distances of a list of hits.
pub open spec fn distances_of(hits: Seq<(usize, u64)>) -> Seq<u64> {
    Seq::new(hits.len(), |j: int| hits[j].1)
}

/// The radius of the first ball: a hundredth of the radius of the root, a
/// thousandth where the tree holds a million instances or more; and at
/// least one.
pub open spec fn first_radius_of(root_radius: u64, cardinality: nat) -> u64 {
    let part = if cardinality >= 1_000_000 {
        root_radius / 1000
    } else {
        root_radius / 100
    };
    if part >= 1 {
        part
    } else {
        1
    }
}

/// The radius after a step of growth to `proposed`: more than `radius`, and
/// no more than twice as much.
pub open spec fn grown_radius_of(radius: u64, proposed: u64) -> u64 {
    let least: int = if radius == u64::MAX {
        u64::MAX as int
    } else {
        radius + 1
    };
    let most: int = if 2 * radius > u64::MAX {
        u64::MAX as int
    } else if 2 * radius < least {
        least
    } else {
        2 * radius
    };
    if proposed < least {
        least as u64
    } else if proposed > most {
        most as u64
    } else {
        proposed
    }
}

/// The radius that the growth rule proposes where whole numbers can tell it:
/// `radius * k / hits`, rounded down, where the local fractal dimension is
/// one; else the greatest there is, which [`grown_radius`] cuts to twice the
/// radius.
pub open spec fn proposed_radius_of(radius: u64, k: nat, hits: nat, lfd: Lfd) -> u64 {
    let found: nat = if hits == 0 {
        1
    } else {
        hits
    };
    if lfd.count == 2 * lfd.half_count && radius * k / (found as int) <= u64::MAX {
        (radius * k / (found as int)) as u64
    } else {
        u64::MAX
    }
}

/// The radius that the growth rule proposes for the next ball, where whole
/// numbers can tell it. The rule multiplies the radius by `k / hits` to the
/// power of one over the local fractal dimension: that is `k / hits` where
/// the dimension is one. For any other dimension the greatest radius is
/// proposed, which [`grown_radius`] cuts to the most that the rule allows.
pub fn proposed_radius(radius: u64, k: usize, hits: usize, lfd: Lfd) -> (r: u64)
    ensures
        r == proposed_radius_of(radius, k as nat, hits as nat, lfd),
{
    let found: u128 = if hits == 0 {
        1
    } else {
        hits as u128
    };
    if lfd.count as u128 == 2 * (lfd.half_count as u128) {
        assert(radius * k <= 0xffff_ffff_ffff_ffff * 0xffff_ffff_ffff_ffff) by (nonlinear_arith)
            requires
                radius <= 0xffff_ffff_ffff_ffff,
                k <= 0xffff_ffff_ffff_ffff,
        ;
        let grown: u128 = (radius as u128) * (k as u128) / found;
        if grown <= u64::MAX as u128 {
            grown as u64
        } else {
            u64::MAX
        }
    } else {
        u64::MAX
    }
}

/// The radius of the first ball of a repeated range search.
pub fn first_radius<T: Sync, M: Metric<T> + Sync>(tree: &Tree<T, M>) -> (r: u64)
    ensures
        r == first_radius_of(tree.root.radius, tree.root.cardinality as nat),
        r >= 1,
{
    let part = if tree.cardinality() >= 1_000_000 {
        tree.radius() / 1000
    } else {
        tree.radius() / 100
    };
    if part >= 1 {
        part
    } else {
        1
    }
}

/// The radius of the next ball: `proposed`, but more than `radius` and no
/// more than twice as much.
pub fn grown_radius(radius: u64, proposed: u64) -> (r: u64)
    ensures
        r == grown_radius_of(radius, proposed),
        radius < u64::MAX ==> radius < r,
        r <= 2 * radius || r == radius + 1 || r == u64::MAX,
{
    if radius == u64::MAX {
        return u64::MAX;
    }
    let least: u64 = radius + 1;
    let most: u64 = if radius > u64::MAX / 2 {
        u64::MAX
    } else if 2 * radius < least {
        least
    } else {
        2 * radius
    };
    if proposed < least {
        least
    } else if proposed > most {
        most
    } else {
        proposed
    }
}

/// The `k` nearest instances by a search of the whole dataset.
pub fn linear<T: Sync, M: Metric<T> + Sync>(tree: &Tree<T, M>, query: &T, k: usize) -> (res: Vec<
    (usize, u64),
>)
    requires
        tree.wf(),
        k >= 1,
    ensures
        tree.data.is_knn_result(tree.root.members(), query, k as nat, res@),
        is_nearest_of(
            res@,
            tree.data.linear_hits(query, u64::MAX, tree.root.members()),
            k as nat,
        ),
{
    let indices = tree.indices();
    let all = tree.data.linear_search(query, u64::MAX, indices.as_slice());
    let res = nearest_of(all, k);
    proof {
        let members = tree.root.members();
        let data = &tree.data;
        data.lemma_linear_is_range_result(members, query, u64::MAX);
        data.lemma_linear_hits(query, u64::MAX, members);
        let (s, n) = choose|s: Seq<(usize, u64)>, n: nat| #[trigger]
            is_tie_cut(s, k as nat, n) && is_ordered(s) && s.to_multiset() == all@.to_multiset()
                && res@ == s.take(n as int);
        lemma_rearranged(s, all@);
        assert forall|j: int| 0 <= j < s.len() implies members.contains((#[trigger] s[j]).0)
            && s[j].1 == data.qdist(query, s[j].0 as int) by {
            assert(s.contains(s[j]));
            assert(all@.contains(s[j]));
            let i = choose|i: int| 0 <= i < all@.len() && all@[i] == s[j];
        }
        assert forall|y: usize| members.contains(y) implies indices_of(s).contains(y) by {
            crate::counting::lemma_count_no_duplicates(members, y);
            crate::counting::lemma_count_contains(indices_of(all@), y);
            let i = choose|i: int| 0 <= i < all@.len() && indices_of(all@)[i] == y;
            assert(all@.contains(all@[i]));
            assert(s.contains(all@[i]));
            let j = choose|j: int| 0 <= j < s.len() && s[j] == all@[i];
            assert(indices_of(s)[j] == y);
        }
        assert(data.is_pool(members, query, s, u64::MAX + 1));
        data.lemma_cut_is_knn(members, query, s, u64::MAX + 1, k as nat, n);
    }
    res
}

impl<T: Sync, M: Metric<T> + Sync> Tree<T, M> {
    /// `res` is what the repeated range search cuts from the ball of the
    /// given radius: the `k` nearest, ties included, of what a descent of
    /// the tree reports for that ball, which holds `k` hits unless the
    /// radius is the greatest there is.
    pub open spec fn is_cut_from_ball(
        &self,
        query: &T,
        k: nat,
        radius: u64,
        res: Seq<(usize, u64)>,
    ) -> bool {
        exists|hits: Seq<(usize, u64)>| #[trigger]
            self.is_ball(query, radius, hits) && (hits.len() >= k || radius == u64::MAX)
                && is_nearest_of(res, hits, k)
    }

    /// `res` is what the repeated range search reports: what it cuts from
    /// the ball of some radius.
    pub open spec fn is_repeated_rnn_result(
        &self,
        query: &T,
        k: nat,
        res: Seq<(usize, u64)>,
    ) -> bool {
        exists|radius: u64| #[trigger] self.is_cut_from_ball(query, k, radius, res)
    }

    /// No descent of the tree loses a hit to the poles, whatever the radius.
    pub open spec fn keeps_every_hit(&self, query: &T) -> bool {
        forall|radius: u64| #[trigger] self.root.keeps_every_hit(&self.data, query, radius)
    }

    /// What is cut from a ball is in order, and holds no instance twice.
    pub proof fn lemma_cut_is_ordered(&self, query: &T, k: nat, res: Seq<(usize, u64)>)
        requires
            self.is_repeated_rnn_result(query, k, res),
        ensures
            is_ordered(res),
            indices_of(res).no_duplicates(),
    {
        let radius = choose|radius: u64| #[trigger] self.is_cut_from_ball(query, k, radius, res);
        let hits = choose|hits: Seq<(usize, u64)>| #[trigger]
            self.is_ball(query, radius, hits) && (hits.len() >= k || radius == u64::MAX)
                && is_nearest_of(res, hits, k);
        crate::nearest::lemma_nearest_is_ordered(res, hits, k);
    }

    /// What is cut from a ball are the `k` nearest, if the metric keeps its
    /// promises to the query and the descent for that ball lost no hit to
    /// the poles.
    pub proof fn lemma_cut_from_ball_is_knn(
        &self,
        query: &T,
        k: nat,
        radius: u64,
        res: Seq<(usize, u64)>,
    )
        requires
            self.wf(),
            k >= 1,
            self.is_cut_from_ball(query, k, radius, res),
            self.data.is_metric_for(query),
            self.root.keeps_every_hit(&self.data, query, radius),
        ensures
            self.data.is_knn_result(self.root.members(), query, k, res),
    {
        let members = self.root.members();
        let data = &self.data;
        let found = choose|hits: Seq<(usize, u64)>| #[trigger]
            self.is_ball(query, radius, hits) && (hits.len() >= k || radius == u64::MAX)
                && is_nearest_of(res, hits, k);
        let (s, n) = choose|s: Seq<(usize, u64)>, n: nat| #[trigger]
            is_tie_cut(s, k, n) && is_ordered(s) && s.to_multiset() == found.to_multiset() && res
                == s.take(n as int);
        lemma_rearranged(s, found);
        assert forall|j: int| 0 <= j < s.len() implies members.contains((#[trigger] s[j]).0)
            && s[j].1 == data.qdist(query, s[j].0 as int) && s[j].1 <= radius by {
            assert(s.contains(s[j]));
            assert(found.contains(s[j]));
            let i = choose|i: int| 0 <= i < found.len() && found[i] == s[j];
        }
        assert forall|y: usize|
            members.contains(y) && !indices_of(s).contains(y) implies #[trigger] data.qdist(
            query,
            y as int,
        ) >= radius + 1 by {
            if data.qdist(query, y as int) <= radius {
                assert(indices_of(found).contains(y));
                let i = choose|i: int| 0 <= i < found.len() && indices_of(found)[i] == y;
                assert(found.contains(found[i]));
                assert(s.contains(found[i]));
                let j = choose|j: int| 0 <= j < s.len() && s[j] == found[i];
                assert(indices_of(s)[j] == y);
            }
        }
        assert(data.is_pool(members, query, s, radius + 1));
        if radius == u64::MAX {
            assert forall|y: usize| members.contains(y) implies indices_of(s).contains(y) by {
                if !indices_of(s).contains(y) {
                    assert(data.qdist(query, y as int) >= radius + 1);
                }
            }
        }
        data.lemma_cut_is_knn(members, query, s, radius + 1, k, n);
    }

    /// The repeated range search reports the `k` nearest, if the metric
    /// keeps its promises to the query and no descent loses a hit to the
    /// poles.
    pub proof fn lemma_repeated_rnn_is_knn(&self, query: &T, k: nat, res: Seq<(usize, u64)>)
        requires
            self.wf(),
            k >= 1,
            self.is_repeated_rnn_result(query, k, res),
            self.data.is_metric_for(query),
            self.keeps_every_hit(query),
        ensures
            self.data.is_knn_result(self.root.members(), query, k, res),
    {
        let radius = choose|radius: u64| #[trigger] self.is_cut_from_ball(query, k, radius, res);
        assert(self.root.keeps_every_hit(&self.data, query, radius));
        self.lemma_cut_from_ball_is_knn(query, k, radius, res);
    }

    /// In a flat space no descent loses a hit to the poles.
    pub proof fn lemma_flat_keeps_every_hit(&self, query: &T)
        requires
            self.wf(),
            self.root.built,
            self.data.is_symmetric(),
            self.data.is_flat_for(query),
        ensures
            self.keeps_every_hit(query),
    {
        assert forall|radius: u64| #[trigger]
            self.root.keeps_every_hit(&self.data, query, radius) by {
            self.root.lemma_flat_keeps_every_hit(&self.data, query, radius);
        }
    }

    /// Asked for more neighbours than there are instances, the repeated
    /// range search reports every instance, nearest first, if the metric
    /// keeps its promises to the query: its last ball is the whole space,
    /// from which the poles rule nothing out.
    pub proof fn lemma_repeated_rnn_of_all(&self, query: &T, k: nat, res: Seq<(usize, u64)>)
        requires
            self.wf(),
            self.root.built,
            k > self.root.members().len(),
            self.is_repeated_rnn_result(query, k, res),
            self.data.is_metric_for(query),
        ensures
            self.data.is_knn_result(self.root.members(), query, k, res),
            res.len() == self.root.members().len(),
            forall|x: usize| self.root.members().contains(x) ==> indices_of(res).contains(x),
    {
        let members = self.root.members();
        let radius = choose|radius: u64| #[trigger] self.is_cut_from_ball(query, k, radius, res);
        let hits = choose|hits: Seq<(usize, u64)>| #[trigger]
            self.is_ball(query, radius, hits) && (hits.len() >= k || radius == u64::MAX)
                && is_nearest_of(res, hits, k);
        assert(hits.len() <= members.len()) by {
            let idx = indices_of(hits);
            idx.unique_seq_to_set();
            members.unique_seq_to_set();
            vstd::seq_lib::seq_to_set_is_finite(members);
            assert forall|y: usize| idx.to_set().contains(y) implies members.to_set().contains(
                y,
            ) by {
                let j = choose|j: int| 0 <= j < idx.len() && idx[j] == y;
                assert(members.contains(hits[j].0));
            }
            vstd::set_lib::lemma_len_subset(idx.to_set(), members.to_set());
        }
        assert(radius == u64::MAX);
        self.root.lemma_whole_ball_keeps_every_hit(&self.data, query);
        self.lemma_cut_from_ball_is_knn(query, k, radius, res);
        self.data.lemma_knn_of_all(members, query, k, res);
    }
}

/// One round of the repeated range search: searches the ball of the given
/// radius round the query, and cuts the `k` nearest from it if it holds `k`
/// instances, or holds all there are.
pub fn repeated_rnn_step<T: Sync, M: Metric<T> + Sync>(
    tree: &Tree<T, M>,
    query: &T,
    k: usize,
    radius: u64,
) -> (step: Step)
    requires
        tree.wf(),
        tree.root.built,
        k >= 1,
    ensures
        match step {
            Step::Done(res) => tree.is_cut_from_ball(query, k as nat, radius, res@),
            Step::Grow { hits, lfd } => {
                &&& radius < u64::MAX
                &&& hits < k
                &&& exists|found: Seq<(usize, u64)>| #[trigger]
                    tree.is_ball(query, radius, found) && found.len() == hits && lfd == lfd_of(
                        distances_of(found),
                        radius,
                    )
            },
        },
{
    let hits = search(tree, query, radius);
    if hits.len() < k && radius < u64::MAX {
        let mut distances: Vec<u64> = Vec::with_capacity(hits.len());
        let mut j: usize = 0;
        while j < hits.len()
            invariant
                j <= hits@.len(),
                distances@ == distances_of(hits@).take(j as int),
            decreases hits@.len() - j,
        {
            distances.push(hits[j].1);
            proof {
                let all = distances_of(hits@);
                assert(all.take(j as int + 1) =~= all.take(j as int).push(all[j as int]));
            }
            j += 1;
        }
        proof {
            assert(distances_of(hits@).take(j as int) =~= distances_of(hits@));
        }
        let lfd = compute_lfd(distances.as_slice(), radius);
        return Step::Grow { hits: hits.len(), lfd };
    }
    Step::Done(nearest_of(hits, k))
}

/// The `k` nearest instances by range searches of growing radius: the
/// radius starts at [`first_radius`] and grows by [`grown_radius`] to what
/// [`proposed_radius`] proposes, until the ball holds `k` instances.
pub fn repeated_rnn<T: Sync, M: Metric<T> + Sync>(tree: &Tree<T, M>, query: &T, k: usize) -> (res:
    Vec<(usize, u64)>)
    requires
        tree.wf(),
        tree.root.built,
        k >= 1,
    ensures
        tree.is_repeated_rnn_result(query, k as nat, res@),
{
    let mut radius = first_radius(tree);
    loop
        invariant
            tree.wf(),
            tree.root.built,
            k >= 1,
        decreases u64::MAX - radius,
    {
        match repeated_rnn_step(tree, query, k, radius) {
            Step::Done(res) => {
                return res;
            },
            Step::Grow { hits, lfd } => {
                radius = grown_radius(radius, proposed_radius(radius, k, hits, lfd));
            },
        }
    }
}

impl Algorithm {
    /// What the search of this kind reports for `k >= 1`.
    ///
    /// The linear search reports the `k` nearest. The repeated range search
    /// reports what it cut from some ball, which are the `k` nearest if the
    /// metric keeps its promises to the query and the descent lost no hit to
    /// the poles. The sieve reports `k` nearest up to ties with the farthest
    /// of them, if the metric keeps its promises to the query.
    pub open spec fn is_answer<T: Sync, M: Metric<T> + Sync>(
        &self,
        tree: &Tree<T, M>,
        query: &T,
        k: nat,
        hits: Seq<(usize, u64)>,
    ) -> bool {
        &&& is_ordered(hits)
        &&& indices_of(hits).no_duplicates()
        &&& match *self {
            Algorithm::Linear => tree.data.is_knn_result(tree.root.members(), query, k, hits),
            Algorithm::RepeatedRnn => tree.is_repeated_rnn_result(query, k, hits),
            Algorithm::Sieve => tree.data.is_metric_for(query)
                ==> tree.data.is_knn_result_up_to_ties(tree.root.members(), query, k, hits),
        }
    }

    /// Finds the `k` instances of the tree that are nearest to the query,
    /// each with its distance, nearest first; instances as far as the
    /// `k`-th are all reported. Refused for `k == 0`.
    pub fn search<T: Sync, M: Metric<T> + Sync>(&self, tree: &Tree<T, M>, query: &T, k: usize) -> (res:
        Result<Vec<(usize, u64)>, ClamError>)
        requires
            tree.wf(),
            tree.root.built,
        ensures
            match res {
                Ok(hits) => k >= 1 && self.is_answer(tree, query, k as nat, hits@),
                Err(e) => e == ClamError::InvalidArgument && k == 0,
            },
    {
        if k == 0 {
            return Err(ClamError::InvalidArgument);
        }
        match self {
            Algorithm::Linear => Ok(linear(tree, query, k)),
            Algorithm::RepeatedRnn => {
                let res = repeated_rnn(tree, query, k);
                proof {
                    tree.lemma_cut_is_ordered(query, k as nat, res@);
                }
                Ok(res)
            },
            Algorithm::Sieve => Ok(sieve(tree, query, k)),
        }
    }
}

impl<T: Sync, M: Metric<T> + Sync> Tree<T, M> {
    /// What every search for the `k` nearest reports, if the metric keeps its
    /// promises to the query and, for the repeated range search, no descent
    /// loses a hit to the poles: `k` hits or more, or every instance; each
    /// with its true distance, in order, and none twice; no instance that is
    /// left out is nearer to the query than one that is reported; and the
    /// hits behind the `k`-th are as far as the `k`-th.
    pub proof fn lemma_knn_answer_shape(
        &self,
        algorithm: Algorithm,
        query: &T,
        k: nat,
        hits: Seq<(usize, u64)>,
    )
        requires
            self.wf(),
            self.root.built,
            k >= 1,
            algorithm.is_answer(self, query, k, hits),
            self.data.is_metric_for(query),
            algorithm == Algorithm::RepeatedRnn ==> self.keeps_every_hit(query) || k
                > self.root.members().len(),
        ensures
            hits.len() >= k || hits.len() == self.root.members().len(),
            is_ordered(hits),
            indices_of(hits).no_duplicates(),
            self.data.are_true_hits(self.root.members(), query, hits),
            forall|x: usize, j: int|
                self.root.members().contains(x) && !indices_of(hits).contains(x) && 0 <= j
                    < hits.len() ==> (#[trigger] hits[j]).1 <= #[trigger] self.data.qdist(
                    query,
                    x as int,
                ),
            forall|j: int| k <= j < hits.len() ==> (#[trigger] hits[j]).1 == hits[k - 1].1,
    {
        let members = self.root.members();
        match algorithm {
            Algorithm::Linear => {
                self.data.lemma_knn_holds_enough(members, query, k, hits);
            },
            Algorithm::RepeatedRnn => {
                if self.keeps_every_hit(query) {
                    self.lemma_repeated_rnn_is_knn(query, k, hits);
                } else {
                    self.lemma_repeated_rnn_of_all(query, k, hits);
                }
                self.data.lemma_knn_holds_enough(members, query, k, hits);
            },
            Algorithm::Sieve => {
                self.data.lemma_knn_up_to_ties_tail(members, query, k, hits);
            },
        }
    }

    /// The three searches for the `k` nearest agree up to ties, if the
    /// metric keeps its promises to the query and no descent loses a hit to
    /// the poles: the linear search and the repeated range search report the
    /// same hits; all that the sieve reports they report too; and what only
    /// they report is as far as anything that the sieve reports, or
    /// farther.
    pub proof fn lemma_knn_searches_agree(
        &self,
        query: &T,
        k: nat,
        linear: Seq<(usize, u64)>,
        repeated: Seq<(usize, u64)>,
        sieved: Seq<(usize, u64)>,
    )
        requires
            self.wf(),
            k >= 1,
            Algorithm::Linear.is_answer(self, query, k, linear),
            Algorithm::RepeatedRnn.is_answer(self, query, k, repeated),
            Algorithm::Sieve.is_answer(self, query, k, sieved),
            self.data.is_metric_for(query),
            self.keeps_every_hit(query) || k > self.root.members().len(),
            self.root.built,
        ensures
            linear.to_set() == repeated.to_set(),
            indices_of(linear).to_set() == indices_of(repeated).to_set(),
            linear.len() == repeated.len(),
            linear.len() >= k || linear.len() == self.root.members().len(),
            forall|h: (usize, u64)| sieved.contains(h) ==> linear.contains(h),
            sieved.len() >= k || sieved.len() == self.root.members().len(),
            forall|i: int, j: int|
                0 <= i < linear.len() && 0 <= j < sieved.len() && !sieved.contains(
                    #[trigger] linear[i],
                ) ==> (#[trigger] sieved[j]).1 <= linear[i].1,
    {
        let members = self.root.members();
        if self.keeps_every_hit(query) {
            self.lemma_repeated_rnn_is_knn(query, k, repeated);
        } else {
            self.lemma_repeated_rnn_of_all(query, k, repeated);
        }
        self.data.lemma_knn_results_agree(members, query, k, linear, repeated);
        self.data.lemma_knn_results_agree_up_to_ties(members, query, k, linear, sieved);
        self.data.lemma_knn_holds_enough(members, query, k, linear);
    }
}

} // verus!
