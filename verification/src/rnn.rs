//! Range search: every instance within a given distance of a query.

use vstd::prelude::*;
use crate::counting::{
    count_of,
    indices_of,
    lemma_count_contains,
    lemma_count_no_duplicates,
    lemma_count_push,
    lemma_counts_give_no_duplicates,
    lemma_indices_push,
};
use crate::dataset::{all_below, VecDataset};
use crate::metric::Metric;

verus! {

/// How a range search goes about it.
#[derive(Clone, Copy, Debug, PartialEq, Eq, Structural)]
pub enum Algorithm {
    /// Measures the distance to every instance.
    Linear,
    /// Descends the tree and measures only where a cluster straddles the
    /// border of the query ball.
    Clustered,
}

impl<T: Sync, M: Metric<T> + Sync> VecDataset<T, M> {
    /// Distances among the stored instances are symmetric, and the query
    /// obeys the triangle inequality with them: what the pruning of balls
    /// rests on.
    pub open spec fn is_metric_for(&self, query: &T) -> bool {
        self.is_symmetric() && self.query_obeys_triangle(query)
    }

    /// Stored instances are at distance zero from themselves, and the query
    /// is separated from the far side of every bisecting hyperplane: what
    /// the pruning of children by their poles rests on.
    pub open spec fn is_flat_for(&self, query: &T) -> bool {
        self.is_reflexive() && self.query_bisects(query)
    }

    /// The instance at position `i` paired with its distance from the query.
    pub open spec fn as_hit(&self, query: &T) -> spec_fn(usize) -> (usize, u64) {
        |i: usize| (i, self.qdist(query, i as int))
    }

    /// The instances of `indices` that are within `radius` of the query, in
    /// the order of `indices`, each with its distance.
    pub open spec fn linear_hits(&self, query: &T, radius: u64, indices: Seq<usize>) -> Seq<
        (usize, u64),
    > {
        indices.map_values(self.as_hit(query)).filter(within(radius))
    }

    /// Between any two stored instances it is no farther than by way of the
    /// query.
    pub open spec fn query_between(&self, query: &T) -> bool {
        forall|i: int, j: int|
            0 <= i < self.len() && 0 <= j < self.len() ==> #[trigger] self.dist(i, j)
                <= self.qdist(query, i) + self.qdist(query, j)
    }

    /// The query and the stored instances are points of one metric space:
    /// distances are symmetric, and the triangle inequality holds whichever
    /// way the query is taken.
    pub open spec fn is_true_distance_for(&self, query: &T) -> bool {
        self.is_metric_for(query) && self.query_between(query)
    }

    /// `hits` leaves out no member that is within the radius of the query.
    pub open spec fn is_complete_for(
        &self,
        members: Seq<usize>,
        query: &T,
        radius: u64,
        hits: Seq<(usize, u64)>,
    ) -> bool {
        forall|x: usize|
            members.contains(x) && self.qdist(query, x as int) <= radius ==> #[trigger] indices_of(
                hits,
            ).contains(x)
    }

    /// `hits` answers the range query over the instances `members` with
    /// nothing wrong in it.
    ///
    /// No instance is reported twice, and none that is not a member. If the
    /// metric keeps its promises to the query, every hit carries the true
    /// distance, which is within the radius. Whether every member within the
    /// radius is reported, [`VecDataset::is_complete_for`] says.
    pub open spec fn is_range_result(
        &self,
        members: Seq<usize>,
        query: &T,
        radius: u64,
        hits: Seq<(usize, u64)>,
    ) -> bool {
        &&& indices_of(hits).no_duplicates()
        &&& forall|k: int| 0 <= k < hits.len() ==> members.contains((#[trigger] hits[k]).0)
        &&& self.is_metric_for(query) ==> forall|k: int|
            0 <= k < hits.len() ==> (#[trigger] hits[k]).1 == self.qdist(query, hits[k].0 as int)
                && hits[k].1 <= radius
    }

    /// What a linear search finds: each hit is an instance of `indices`
    /// with its true distance, which is within the radius, and every
    /// instance within the radius is found as often as `indices` lists it.
    pub proof fn lemma_linear_hits(&self, query: &T, radius: u64, indices: Seq<usize>)
        ensures
            forall|k: int|
                0 <= k < self.linear_hits(query, radius, indices).len() ==> {
                    let h = #[trigger] self.linear_hits(query, radius, indices)[k];
                    &&& indices.contains(h.0)
                    &&& h.1 == self.qdist(query, h.0 as int)
                    &&& h.1 <= radius
                },
            forall|x: usize| #[trigger]
                count_of(indices_of(self.linear_hits(query, radius, indices)), x) == if self.qdist(
                    query,
                    x as int,
                ) <= radius {
                    count_of(indices, x)
                } else {
                    0
                },
        decreases indices.len(),
    {
        reveal(Seq::filter);
        let hits = self.linear_hits(query, radius, indices);
        if indices.len() == 0 {
            assert(hits =~= Seq::empty());
            assert(indices_of(hits) =~= Seq::empty());
        } else {
            let front = indices.drop_last();
            let last = indices.last();
            let h = (last, self.qdist(query, last as int));
            self.lemma_linear_hits(query, radius, front);
            let before = self.linear_hits(query, radius, front);
            assert(indices =~= front.push(last));
            assert(indices.map_values(self.as_hit(query)) =~= front.map_values(
                self.as_hit(query),
            ).push(h));
            front.map_values(self.as_hit(query)).lemma_filter_push(h, within(radius));
            assert forall|k: int| 0 <= k < hits.len() implies ({
                let e = #[trigger] hits[k];
                &&& indices.contains(e.0)
                &&& e.1 == self.qdist(query, e.0 as int)
                &&& e.1 <= radius
            }) by {
                if k < before.len() {
                    let e = before[k];
                    assert(front.contains(e.0));
                    let j = choose|j: int| 0 <= j < front.len() && front[j] == e.0;
                    assert(indices[j] == e.0);
                } else {
                    assert(indices[indices.len() - 1] == last);
                }
            }
            assert forall|x: usize| #[trigger]
                count_of(indices_of(hits), x) == if self.qdist(query, x as int) <= radius {
                    count_of(indices, x)
                } else {
                    0
                } by {
                assert(count_of(indices_of(before), x) == if self.qdist(query, x as int)
                    <= radius {
                    count_of(front, x)
                } else {
                    0
                });
                if h.1 <= radius {
                    lemma_indices_push(before, h);
                    lemma_count_push(indices_of(before), last, x);
                }
            }
        }
    }

    /// A linear search over instances that are listed once answers the range
    /// query over them, and leaves out nothing.
    pub proof fn lemma_linear_is_range_result(
        &self,
        members: Seq<usize>,
        query: &T,
        radius: u64,
    )
        requires
            members.no_duplicates(),
        ensures
            self.is_range_result(
                members,
                query,
                radius,
                self.linear_hits(query, radius, members),
            ),
            self.is_complete_for(
                members,
                query,
                radius,
                self.linear_hits(query, radius, members),
            ),
    {
        let hits = self.linear_hits(query, radius, members);
        self.lemma_linear_hits(query, radius, members);
        assert forall|x: usize| count_of(indices_of(hits), x) <= 1 by {
            lemma_count_no_duplicates(members, x);
        }
        lemma_counts_give_no_duplicates(indices_of(hits));
        assert forall|x: usize|
            members.contains(x) && self.qdist(query, x as int) <= radius implies #[trigger] indices_of(
            hits,
        ).contains(x) by {
            lemma_count_no_duplicates(members, x);
            assert(count_of(indices_of(hits), x) == 1);
            lemma_count_contains(indices_of(hits), x);
        }
    }

    /// Two answers to one range query that leave out nothing hold the same
    /// hits, if the metric keeps its promises to the query.
    pub proof fn lemma_range_results_agree(
        &self,
        members: Seq<usize>,
        query: &T,
        radius: u64,
        one: Seq<(usize, u64)>,
        other: Seq<(usize, u64)>,
    )
        requires
            self.is_metric_for(query),
            self.is_range_result(members, query, radius, one),
            self.is_range_result(members, query, radius, other),
            self.is_complete_for(members, query, radius, one),
            self.is_complete_for(members, query, radius, other),
        ensures
            one.to_set() == other.to_set(),
            indices_of(one).to_set() == indices_of(other).to_set(),
            one.len() == other.len(),
    {
        self.lemma_range_result_in(members, query, radius, one, other);
        self.lemma_range_result_in(members, query, radius, other, one);
        assert(one.to_set() =~= other.to_set());
        assert(indices_of(one).to_set() =~= indices_of(other).to_set()) by {
            assert forall|x: usize| indices_of(one).contains(x) <==> indices_of(other).contains(
                x,
            ) by {
                if indices_of(one).contains(x) {
                    let k = choose|k: int| 0 <= k < one.len() && indices_of(one)[k] == x;
                    assert(one.contains(one[k]));
                    assert(other.contains(one[k]));
                    let j = choose|j: int| 0 <= j < other.len() && other[j] == one[k];
                    assert(indices_of(other)[j] == x);
                }
                if indices_of(other).contains(x) {
                    let k = choose|k: int| 0 <= k < other.len() && indices_of(other)[k] == x;
                    assert(other.contains(other[k]));
                    assert(one.contains(other[k]));
                    let j = choose|j: int| 0 <= j < one.len() && one[j] == other[k];
                    assert(indices_of(one)[j] == x);
                }
            }
        }
        indices_of(one).unique_seq_to_set();
        indices_of(other).unique_seq_to_set();
    }

    /// A clustered search finds what a linear search finds: an answer to a
    /// range query that leaves out nothing holds the hits of the linear
    /// search over the same instances, if the metric keeps its promises to
    /// the query.
    pub proof fn lemma_agrees_with_linear(
        &self,
        members: Seq<usize>,
        query: &T,
        radius: u64,
        hits: Seq<(usize, u64)>,
    )
        requires
            members.no_duplicates(),
            self.is_metric_for(query),
            self.is_range_result(members, query, radius, hits),
            self.is_complete_for(members, query, radius, hits),
        ensures
            hits.to_set() == self.linear_hits(query, radius, members).to_set(),
            indices_of(hits).to_set() == indices_of(
                self.linear_hits(query, radius, members),
            ).to_set(),
            hits.len() == self.linear_hits(query, radius, members).len(),
    {
        self.lemma_linear_is_range_result(members, query, radius);
        self.lemma_range_results_agree(
            members,
            query,
            radius,
            hits,
            self.linear_hits(query, radius, members),
        );
    }

    /// With radius zero a range search that leaves out nothing finds the
    /// instances at distance zero from the query, and no others, if the
    /// metric keeps its promises to the query.
    pub proof fn lemma_radius_zero(&self, members: Seq<usize>, query: &T, hits: Seq<(usize, u64)>)
        requires
            self.is_metric_for(query),
            self.is_range_result(members, query, 0, hits),
            self.is_complete_for(members, query, 0, hits),
        ensures
            forall|x: usize|
                members.contains(x) ==> (#[trigger] indices_of(hits).contains(x) <==> self.qdist(
                    query,
                    x as int,
                ) == 0),
            forall|k: int| 0 <= k < hits.len() ==> (#[trigger] hits[k]).1 == 0,
    {
        assert forall|x: usize| members.contains(x) implies (#[trigger] indices_of(hits).contains(
            x,
        ) <==> self.qdist(query, x as int) == 0) by {
            if indices_of(hits).contains(x) {
                let k = choose|k: int| 0 <= k < hits.len() && indices_of(hits)[k] == x;
                assert(hits[k].1 == self.qdist(query, hits[k].0 as int));
            }
        }
    }

    /// Every hit of one answer to a range query is a hit of any other that
    /// leaves out nothing.
    pub proof fn lemma_range_result_in(
        &self,
        members: Seq<usize>,
        query: &T,
        radius: u64,
        one: Seq<(usize, u64)>,
        other: Seq<(usize, u64)>,
    )
        requires
            self.is_metric_for(query),
            self.is_range_result(members, query, radius, one),
            self.is_range_result(members, query, radius, other),
            self.is_complete_for(members, query, radius, other),
        ensures
            forall|h: (usize, u64)| one.contains(h) ==> other.contains(h),
    {
        assert forall|h: (usize, u64)| one.contains(h) implies other.contains(h) by {
            let k = choose|k: int| 0 <= k < one.len() && one[k] == h;
            assert(members.contains(one[k].0));
            assert(indices_of(other).contains(h.0));
            let j = choose|j: int| 0 <= j < other.len() && indices_of(other)[j] == h.0;
            assert(other[j].1 == self.qdist(query, other[j].0 as int));
            assert(other[j] == h);
        }
    }

    /// Measures the distance from the query to every instance of `indices`
    /// and keeps those within the radius.
    pub fn linear_search(&self, query: &T, radius: u64, indices: &[usize]) -> (hits: Vec<
        (usize, u64),
    >)
        requires
            self.wf(),
            all_below(indices@, self.len()),
        ensures
            hits@ == self.linear_hits(query, radius, indices@),
    {
        let distances = self.query_to_many(query, indices);
        let mut hits: Vec<(usize, u64)> = Vec::new();
        let mut k: usize = 0;
        proof {
            reveal(Seq::filter);
            assert(indices@.take(0).map_values(self.as_hit(query)) =~= Seq::empty());
        }
        while k < indices.len()
            invariant
                k <= indices@.len(),
                distances@ == self.query_distances(query, indices@),
                hits@ == self.linear_hits(query, radius, indices@.take(k as int)),
            decreases indices@.len() - k,
        {
            proof {
                let front = indices@.take(k as int);
                let h = (indices@[k as int], distances@[k as int]);
                assert(indices@.take(k as int + 1) =~= front.push(indices@[k as int]));
                assert(indices@.take(k as int + 1).map_values(self.as_hit(query))
                    =~= front.map_values(self.as_hit(query)).push(h));
                front.map_values(self.as_hit(query)).lemma_filter_push(h, within(radius));
            }
            if distances[k] <= radius {
                hits.push((indices[k], distances[k]));
            }
            k += 1;
        }
        proof {
            assert(indices@.take(k as int) =~= indices@);
        }
        hits
    }
}

/// The hits that are within `radius`.
pub open spec fn within(radius: u64) -> spec_fn((usize, u64)) -> bool {
    |h: (usize, u64)| h.1 <= radius
}

} // verus!
