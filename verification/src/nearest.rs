//! What "the k nearest" means, and how to cut them from a list of hits.

use vstd::prelude::*;
use vstd::set_lib::lemma_len_subset;
use crate::counting::indices_of;
use crate::dataset::VecDataset;
use crate::metric::Metric;

verus! {

/// The hit `a` is listed no later than `b`: it is nearer, or as near and of
/// no greater index.
pub open spec fn comes_before(a: (usize, u64), b: (usize, u64)) -> bool {
    a.1 < b.1 || (a.1 == b.1 && a.0 <= b.0)
}

/// The hits are listed by ascending distance, and by ascending index where
/// distances are equal.
pub open spec fn is_ordered(s: Seq<(usize, u64)>) -> bool {
    forall|i: int, j: int| 0 <= i < j < s.len() ==> comes_before(#[trigger] s[i], #[trigger] s[j])
}

/// `n` is how many of the ordered hits `s` are kept for the `k` nearest: all
/// where there are no more than `k`, else the first `k` and after them those
/// that are as far as the `k`-th.
pub open spec fn is_tie_cut(s: Seq<(usize, u64)>, k: nat, n: nat) -> bool {
    if k >= s.len() {
        n == s.len()
    } else if k == 0 {
        n == 0
    } else {
        &&& k <= n <= s.len()
        &&& forall|j: int| k <= j < n ==> (#[trigger] s[j]).1 == s[k - 1].1
        &&& n < s.len() ==> s[n as int].1 != s[k - 1].1
    }
}

/// `res` holds the `k` nearest of `hits`, and with them every hit that is as
/// far as the `k`-th, in order.
pub open spec fn is_nearest_of(res: Seq<(usize, u64)>, hits: Seq<(usize, u64)>, k: nat) -> bool {
    exists|s: Seq<(usize, u64)>, n: nat| #[trigger]
        is_tie_cut(s, k, n) && is_ordered(s) && s.to_multiset() == hits.to_multiset() && res
            == s.take(n as int)
}

/// Sorts the hits with `sort_by_key` of std, by the key `(distance, index)`.
/// A sort rearranges, and leaves the keys in ascending order; std orders
/// tuples by their first component, then by their second.
#[verifier::external_body]
fn sort_hits(hits: &mut Vec<(usize, u64)>)
    ensures
        final(hits)@.to_multiset() == old(hits)@.to_multiset(),
        is_ordered(final(hits)@),
{
    hits.sort_by_key(|h| (h.1, h.0))
}

/// The `k` nearest of the hits, and with them every hit that is as far as
/// the `k`-th, by ascending distance and, where distances are equal, by
/// ascending index.
pub fn nearest_of(hits: Vec<(usize, u64)>, k: usize) -> (res: Vec<(usize, u64)>)
    ensures
        is_nearest_of(res@, hits@, k as nat),
{
    let mut sorted = hits;
    sort_hits(&mut sorted);
    cut_ties(sorted, k)
}

/// The first `k` of the hits, and after them those that are as far as the
/// `k`-th.
pub fn cut_ties(hits: Vec<(usize, u64)>, k: usize) -> (res: Vec<(usize, u64)>)
    ensures
        exists|n: nat| #[trigger] is_tie_cut(hits@, k as nat, n) && res@ == hits@.take(n as int),
{
    let mut sorted = hits;
    let ghost s = sorted@;
    let len = sorted.len();
    if k >= len {
        proof {
            assert(is_tie_cut(s, k as nat, len as nat));
            assert(s.take(len as int) =~= s);
        }
        return sorted;
    }
    if k == 0 {
        sorted.truncate(0);
        proof {
            assert(is_tie_cut(s, 0, 0));
        }
        return sorted;
    }
    let cutoff = sorted[k - 1].1;
    let mut n: usize = k;
    while n < len && sorted[n].1 == cutoff
        invariant
            sorted@ == s,
            len == s.len(),
            1 <= k <= n <= len,
            cutoff == s[k - 1].1,
            forall|j: int| k <= j < n ==> (#[trigger] s[j]).1 == cutoff,
        decreases len - n,
    {
        n += 1;
    }
    sorted.truncate(n);
    proof {
        assert(is_tie_cut(s, k as nat, n as nat));
    }
    sorted
}

impl<T: Sync, M: Metric<T> + Sync> VecDataset<T, M> {
    /// The members that are nearer to the query than `d`.
    pub open spec fn nearer(&self, members: Seq<usize>, query: &T, d: u64) -> Set<usize> {
        Set::new(|y: usize| members.contains(y) && self.qdist(query, y as int) < d)
    }

    /// Every hit is a member, with its true distance from the query.
    pub open spec fn are_true_hits(
        &self,
        members: Seq<usize>,
        query: &T,
        hits: Seq<(usize, u64)>,
    ) -> bool {
        forall|j: int|
            0 <= j < hits.len() ==> members.contains((#[trigger] hits[j]).0) && hits[j].1
                == self.qdist(query, hits[j].0 as int)
    }

    /// `hits` are the `k` nearest of `members` to the query, ties included.
    ///
    /// They are in order, each a member with its true distance, and a member
    /// is among them exactly if fewer than `k` members are nearer to the
    /// query than it is.
    pub open spec fn is_knn_result(
        &self,
        members: Seq<usize>,
        query: &T,
        k: nat,
        hits: Seq<(usize, u64)>,
    ) -> bool {
        &&& is_ordered(hits)
        &&& indices_of(hits).no_duplicates()
        &&& self.are_true_hits(members, query, hits)
        &&& forall|x: usize|
            members.contains(x) ==> (#[trigger] indices_of(hits).contains(x) <==> self.nearer(
                members,
                query,
                self.qdist(query, x as int),
            ).len() < k)
    }

    /// `hits` are `k` nearest of `members` to the query, up to ties with the
    /// farthest of them.
    ///
    /// They are in order, each a member with its true distance and with
    /// fewer than `k` members nearer to the query than it is; they are `k`
    /// or more, or all members; and a member with fewer than `k` members
    /// nearer to the query that is not among them is as far as the farthest
    /// of them, or farther.
    pub open spec fn is_knn_result_up_to_ties(
        &self,
        members: Seq<usize>,
        query: &T,
        k: nat,
        hits: Seq<(usize, u64)>,
    ) -> bool {
        &&& is_ordered(hits)
        &&& indices_of(hits).no_duplicates()
        &&& self.are_true_hits(members, query, hits)
        &&& hits.len() >= k || hits.len() == members.len()
        &&& forall|j: int|
            0 <= j < hits.len() ==> self.nearer(members, query, (#[trigger] hits[j]).1).len() < k
        &&& forall|x: usize, j: int|
            members.contains(x) && !indices_of(hits).contains(x) && 0 <= j < hits.len() ==> (
            #[trigger] hits[j]).1 <= #[trigger] self.qdist(query, x as int)
    }

    /// The hits `s` are a pool from which the nearest may be cut: they are in
    /// order, no instance is in them twice, each is a member with its true
    /// distance, and every member that is not among them is at least `beyond`
    /// away from the query.
    pub open spec fn is_pool(
        &self,
        members: Seq<usize>,
        query: &T,
        s: Seq<(usize, u64)>,
        beyond: int,
    ) -> bool {
        &&& members.no_duplicates()
        &&& is_ordered(s)
        &&& indices_of(s).no_duplicates()
        &&& self.are_true_hits(members, query, s)
        &&& forall|y: usize|
            members.contains(y) && !indices_of(s).contains(y) ==> #[trigger] self.qdist(
                query,
                y as int,
            ) >= beyond
    }
}

/// A rearrangement of hits holds the same hits, as many, and no instance
/// twice if the hits did not.
pub proof fn lemma_rearranged(s: Seq<(usize, u64)>, hits: Seq<(usize, u64)>)
    requires
        s.to_multiset() == hits.to_multiset(),
        indices_of(hits).no_duplicates(),
    ensures
        s.len() == hits.len(),
        forall|h: (usize, u64)| s.contains(h) <==> hits.contains(h),
        indices_of(s).no_duplicates(),
{
    s.to_multiset_ensures();
    hits.to_multiset_ensures();
    assert forall|h: (usize, u64)| s.contains(h) <==> hits.contains(h) by {
        assert(s.contains(h) <==> s.to_multiset().count(h) > 0);
        assert(hits.contains(h) <==> hits.to_multiset().count(h) > 0);
    }
    assert forall|i: int, j: int|
        0 <= i < hits.len() && 0 <= j < hits.len() && i != j implies hits[i] != hits[j] by {
        assert(indices_of(hits)[i] != indices_of(hits)[j]);
    }
    hits.lemma_multiset_has_no_duplicates();
    s.lemma_multiset_has_no_duplicates_conv();
    assert forall|i: int, j: int|
        0 <= i < s.len() && 0 <= j < s.len() && i != j implies indices_of(s)[i] != indices_of(
        s,
    )[j] by {
        if s[i].0 == s[j].0 {
            assert(s.contains(s[i]) && s.contains(s[j]));
            assert(hits.contains(s[i]) && hits.contains(s[j]));
            let a = choose|a: int| 0 <= a < hits.len() && hits[a] == s[i];
            let b = choose|b: int| 0 <= b < hits.len() && hits[b] == s[j];
            assert(indices_of(hits)[a] == indices_of(hits)[b]);
        }
    }
}

/// The nearest of hits that hold no instance twice are in order, and hold no
/// instance twice.
pub proof fn lemma_nearest_is_ordered(res: Seq<(usize, u64)>, hits: Seq<(usize, u64)>, k: nat)
    requires
        indices_of(hits).no_duplicates(),
        is_nearest_of(res, hits, k),
    ensures
        is_ordered(res),
        indices_of(res).no_duplicates(),
{
    let (s, n) = choose|s: Seq<(usize, u64)>, n: nat| #[trigger]
        is_tie_cut(s, k, n) && is_ordered(s) && s.to_multiset() == hits.to_multiset() && res
            == s.take(n as int);
    lemma_rearranged(s, hits);
    assert forall|i: int, j: int| 0 <= i < res.len() && 0 <= j < res.len() && i
        != j implies indices_of(res)[i] != indices_of(res)[j] by {
        assert(indices_of(s)[i] != indices_of(s)[j]);
    }
}

/// The instances of the first `p` hits are `p` instances.
pub proof fn lemma_prefix_indices(s: Seq<(usize, u64)>, p: int)
    requires
        indices_of(s).no_duplicates(),
        0 <= p <= s.len(),
    ensures
        indices_of(s.take(p)).to_set().finite(),
        indices_of(s.take(p)).to_set().len() == p,
        forall|y: usize|
            indices_of(s.take(p)).to_set().contains(y) <==> exists|j: int|
                0 <= j < p && (#[trigger] s[j]).0 == y,
{
    let front = indices_of(s.take(p));
    assert forall|i: int, j: int|
        0 <= i < front.len() && 0 <= j < front.len() && i != j implies front[i] != front[j] by {
        assert(indices_of(s)[i] != indices_of(s)[j]);
    }
    front.unique_seq_to_set();
    vstd::seq_lib::seq_to_set_is_finite(front);
    assert forall|y: usize| front.to_set().contains(y) <==> exists|j: int|
        0 <= j < p && (#[trigger] s[j]).0 == y by {
        if front.to_set().contains(y) {
            assert(front.contains(y));
            let j = choose|j: int| 0 <= j < front.len() && front[j] == y;
            assert(s[j].0 == y);
        }
        if exists|j: int| 0 <= j < p && (#[trigger] s[j]).0 == y {
            let j = choose|j: int| 0 <= j < p && (#[trigger] s[j]).0 == y;
            assert(front[j] == y);
            assert(front.contains(y));
        }
    }
}

impl<T: Sync, M: Metric<T> + Sync> VecDataset<T, M> {
    /// The members nearer to the query than a hit of a pool are among the
    /// hits before it, so long as no member outside the pool is nearer.
    pub proof fn lemma_nearer_at_most(
        &self,
        members: Seq<usize>,
        query: &T,
        s: Seq<(usize, u64)>,
        beyond: int,
        p: int,
    )
        requires
            self.is_pool(members, query, s, beyond),
            0 <= p < s.len(),
            s[p].1 <= beyond,
        ensures
            self.nearer(members, query, s[p].1).finite(),
            self.nearer(members, query, s[p].1).len() <= p,
    {
        let near = self.nearer(members, query, s[p].1);
        let front = indices_of(s.take(p)).to_set();
        lemma_prefix_indices(s, p);
        assert forall|y: usize| near.contains(y) implies front.contains(y) by {
            assert(indices_of(s).contains(y));
            let j = choose|j: int| 0 <= j < s.len() && indices_of(s)[j] == y;
            assert(s[j].1 == self.qdist(query, y as int));
            if j > p {
                assert(comes_before(s[p], s[j]));
            }
            assert(s[j].0 == y);
        }
        lemma_len_subset(near, front);
    }

    /// Where the first `m` hits of a pool are all nearer than `d`, at least
    /// `m` members are.
    pub proof fn lemma_nearer_at_least(
        &self,
        members: Seq<usize>,
        query: &T,
        s: Seq<(usize, u64)>,
        beyond: int,
        m: int,
        d: u64,
    )
        requires
            self.is_pool(members, query, s, beyond),
            0 <= m <= s.len(),
            forall|j: int| 0 <= j < m ==> (#[trigger] s[j]).1 < d,
        ensures
            self.nearer(members, query, d).finite(),
            self.nearer(members, query, d).len() >= m,
    {
        let near = self.nearer(members, query, d);
        let front = indices_of(s.take(m)).to_set();
        lemma_prefix_indices(s, m);
        vstd::seq_lib::seq_to_set_is_finite(members);
        assert forall|y: usize| near.contains(y) implies members.to_set().contains(y) by {}
        lemma_len_subset(near, members.to_set());
        assert forall|y: usize| front.contains(y) implies near.contains(y) by {
            let j = choose|j: int| 0 <= j < m && (#[trigger] s[j]).0 == y;
            assert(s[j].1 < d);
        }
        lemma_len_subset(front, near);
    }

    /// What a tie cut keeps of a pool: hits with fewer than `k` members
    /// nearer; and what it leaves in the pool has `k` members nearer or
    /// more.
    pub proof fn lemma_cut(
        &self,
        members: Seq<usize>,
        query: &T,
        s: Seq<(usize, u64)>,
        beyond: int,
        k: nat,
        n: nat,
        p: int,
    )
        requires
            self.is_pool(members, query, s, beyond),
            k >= 1,
            is_tie_cut(s, k, n),
            0 <= p < s.len(),
            p < n ==> s[p].1 <= beyond,
        ensures
            p < n ==> self.nearer(members, query, s[p].1).len() < k,
            p >= n ==> self.nearer(members, query, s[p].1).len() >= k,
    {
        if p < n {
            if p < k {
                self.lemma_nearer_at_most(members, query, s, beyond, p);
            } else {
                assert(s[p].1 == s[k - 1].1);
                self.lemma_nearer_at_most(members, query, s, beyond, k - 1);
            }
        } else {
            assert(k < s.len());
            assert(comes_before(s[k - 1], s[n as int]));
            if p > n {
                assert(comes_before(s[n as int], s[p]));
            }
            assert forall|j: int| 0 <= j < k implies (#[trigger] s[j]).1 < s[p].1 by {
                if j < k - 1 {
                    assert(comes_before(s[j], s[k - 1]));
                }
            }
            self.lemma_nearer_at_least(members, query, s, beyond, k as int, s[p].1);
        }
    }

    /// A tie cut of a pool whose hits are all nearer than any member outside
    /// it gives the `k` nearest members, if the pool holds `k` hits or every
    /// member.
    pub proof fn lemma_cut_is_knn(
        &self,
        members: Seq<usize>,
        query: &T,
        s: Seq<(usize, u64)>,
        beyond: int,
        k: nat,
        n: nat,
    )
        requires
            self.is_pool(members, query, s, beyond),
            k >= 1,
            is_tie_cut(s, k, n),
            forall|j: int| 0 <= j < s.len() ==> (#[trigger] s[j]).1 < beyond,
            s.len() >= k || forall|y: usize| members.contains(y) ==> indices_of(s).contains(y),
        ensures
            self.is_knn_result(members, query, k, s.take(n as int)),
    {
        let res = s.take(n as int);
        assert forall|i: int, j: int| 0 <= i < res.len() && 0 <= j < res.len() && i
            != j implies indices_of(res)[i] != indices_of(res)[j] by {
            assert(indices_of(s)[i] != indices_of(s)[j]);
        }
        assert forall|x: usize| members.contains(x) implies (#[trigger] indices_of(res).contains(
            x,
        ) <==> self.nearer(members, query, self.qdist(query, x as int)).len() < k) by {
            let d = self.qdist(query, x as int);
            if indices_of(s).contains(x) {
                let p = choose|p: int| 0 <= p < s.len() && indices_of(s)[p] == x;
                assert(s[p].0 == x && s[p].1 == d);
                self.lemma_cut(members, query, s, beyond, k, n, p);
                if p < n {
                    assert(indices_of(res)[p] == x);
                } else if indices_of(res).contains(x) {
                    let j = choose|j: int| 0 <= j < res.len() && indices_of(res)[j] == x;
                    assert(indices_of(s)[j] == indices_of(s)[p]);
                }
            } else {
                assert(s.len() >= k);
                self.lemma_nearer_at_least(members, query, s, beyond, s.len() as int, d);
                if indices_of(res).contains(x) {
                    let j = choose|j: int| 0 <= j < res.len() && indices_of(res)[j] == x;
                    assert(indices_of(s)[j] == x);
                }
            }
        }
    }

    /// A tie cut of a pool that holds `k` hits, and outside of which no
    /// member is nearer than its `k`-th hit, gives `k` nearest members up to
    /// ties; and so does the whole of a pool that holds every member.
    pub proof fn lemma_cut_is_knn_up_to_ties(
        &self,
        members: Seq<usize>,
        query: &T,
        s: Seq<(usize, u64)>,
        beyond: int,
        k: nat,
        n: nat,
    )
        requires
            self.is_pool(members, query, s, beyond),
            k >= 1,
            is_tie_cut(s, k, n),
            if s.len() >= k {
                s[k - 1].1 <= beyond
            } else {
                forall|y: usize| members.contains(y) ==> indices_of(s).contains(y)
            },
        ensures
            self.is_knn_result_up_to_ties(members, query, k, s.take(n as int)),
    {
        let res = s.take(n as int);
        assert forall|i: int, j: int| 0 <= i < res.len() && 0 <= j < res.len() && i
            != j implies indices_of(res)[i] != indices_of(res)[j] by {
            assert(indices_of(s)[i] != indices_of(s)[j]);
        }
        if s.len() < k {
            assert(res =~= s);
            assert(forall|y: usize| members.contains(y) ==> indices_of(s).contains(y));
            self.lemma_pool_of_all(members, query, s);
            assert forall|j: int| 0 <= j < res.len() implies self.nearer(
                members,
                query,
                (#[trigger] res[j]).1,
            ).len() < k by {
                self.lemma_nearer_at_most(members, query, s, res[j].1 as int, j);
            }
        } else {
            assert forall|j: int| 0 <= j < res.len() implies (#[trigger] s[j]).1 <= s[k - 1].1 by {
                if j < k - 1 {
                    assert(comes_before(s[j], s[k - 1]));
                }
            }
            assert forall|j: int| 0 <= j < res.len() implies self.nearer(
                members,
                query,
                (#[trigger] res[j]).1,
            ).len() < k by {
                assert(s[j].1 <= s[k - 1].1);
                self.lemma_cut(members, query, s, beyond, k, n, j);
            }
            assert forall|x: usize, j: int|
                members.contains(x) && !indices_of(res).contains(x) && 0 <= j
                    < res.len() implies (#[trigger] res[j]).1 <= #[trigger] self.qdist(
                query,
                x as int,
            ) by {
                assert(s[j].1 <= s[k - 1].1);
                if indices_of(s).contains(x) {
                    let p = choose|p: int| 0 <= p < s.len() && indices_of(s)[p] == x;
                    assert(s[p].0 == x);
                    if p < n {
                        assert(indices_of(res)[p] == x);
                    } else {
                        assert(comes_before(s[j], s[p]));
                    }
                }
            }
        }
    }

    /// A pool that holds every member holds as many hits as there are
    /// members.
    pub proof fn lemma_pool_of_all(&self, members: Seq<usize>, query: &T, s: Seq<(usize, u64)>)
        requires
            members.no_duplicates(),
            indices_of(s).no_duplicates(),
            self.are_true_hits(members, query, s),
            forall|y: usize| members.contains(y) ==> indices_of(s).contains(y),
        ensures
            s.len() == members.len(),
    {
        let idx = indices_of(s);
        idx.unique_seq_to_set();
        members.unique_seq_to_set();
        assert(idx.to_set() =~= members.to_set()) by {
            assert forall|y: usize| idx.to_set().contains(y) <==> members.to_set().contains(y) by {
                if idx.contains(y) {
                    let j = choose|j: int| 0 <= j < idx.len() && idx[j] == y;
                    assert(members.contains(s[j].0));
                }
            }
        }
    }
}

impl<T: Sync, M: Metric<T> + Sync> VecDataset<T, M> {
    /// Two searches that each find the `k` nearest find the same instances.
    pub proof fn lemma_knn_results_agree(
        &self,
        members: Seq<usize>,
        query: &T,
        k: nat,
        one: Seq<(usize, u64)>,
        other: Seq<(usize, u64)>,
    )
        requires
            self.is_knn_result(members, query, k, one),
            self.is_knn_result(members, query, k, other),
        ensures
            one.to_set() == other.to_set(),
            indices_of(one).to_set() == indices_of(other).to_set(),
            one.len() == other.len(),
    {
        self.lemma_knn_result_in(members, query, k, one, other);
        self.lemma_knn_result_in(members, query, k, other, one);
        assert(one.to_set() =~= other.to_set());
        assert(indices_of(one).to_set() =~= indices_of(other).to_set()) by {
            assert forall|x: usize| indices_of(one).contains(x) <==> indices_of(other).contains(
                x,
            ) by {
                if indices_of(one).contains(x) {
                    let j = choose|j: int| 0 <= j < one.len() && indices_of(one)[j] == x;
                    assert(members.contains(one[j].0));
                }
                if indices_of(other).contains(x) {
                    let j = choose|j: int| 0 <= j < other.len() && indices_of(other)[j] == x;
                    assert(members.contains(other[j].0));
                }
            }
        }
        indices_of(one).unique_seq_to_set();
        indices_of(other).unique_seq_to_set();
    }

    /// Every hit of one search for the `k` nearest is a hit of any other.
    pub proof fn lemma_knn_result_in(
        &self,
        members: Seq<usize>,
        query: &T,
        k: nat,
        one: Seq<(usize, u64)>,
        other: Seq<(usize, u64)>,
    )
        requires
            self.is_knn_result(members, query, k, one),
            self.is_knn_result(members, query, k, other),
        ensures
            forall|h: (usize, u64)| one.contains(h) ==> other.contains(h),
    {
        assert forall|h: (usize, u64)| one.contains(h) implies other.contains(h) by {
            let j = choose|j: int| 0 <= j < one.len() && one[j] == h;
            assert(members.contains(one[j].0));
            assert(indices_of(one)[j] == h.0);
            assert(indices_of(one).contains(h.0));
            assert(indices_of(other).contains(h.0));
            let i = choose|i: int| 0 <= i < other.len() && indices_of(other)[i] == h.0;
            assert(other[i].1 == self.qdist(query, other[i].0 as int));
            assert(other[i] == h);
        }
    }

    /// A search that finds `k` nearest up to ties agrees with one that finds
    /// the `k` nearest, but for ties with its farthest hit: all that it
    /// finds the other finds too, and what only the other finds is as far
    /// as anything that it finds, or farther.
    pub proof fn lemma_knn_results_agree_up_to_ties(
        &self,
        members: Seq<usize>,
        query: &T,
        k: nat,
        exact: Seq<(usize, u64)>,
        close: Seq<(usize, u64)>,
    )
        requires
            self.is_knn_result(members, query, k, exact),
            self.is_knn_result_up_to_ties(members, query, k, close),
        ensures
            forall|h: (usize, u64)| close.contains(h) ==> exact.contains(h),
            forall|i: int, j: int|
                0 <= i < exact.len() && 0 <= j < close.len() && !close.contains(
                    #[trigger] exact[i],
                ) ==> (#[trigger] close[j]).1 <= exact[i].1,
    {
        assert forall|h: (usize, u64)| close.contains(h) implies exact.contains(h) by {
            let j = choose|j: int| 0 <= j < close.len() && close[j] == h;
            assert(members.contains(close[j].0));
            assert(self.nearer(members, query, close[j].1).len() < k);
            assert(indices_of(exact).contains(h.0));
            let i = choose|i: int| 0 <= i < exact.len() && indices_of(exact)[i] == h.0;
            assert(exact[i].1 == self.qdist(query, exact[i].0 as int));
            assert(exact[i] == h);
        }
        assert forall|i: int, j: int|
            0 <= i < exact.len() && 0 <= j < close.len() && !close.contains(
                #[trigger] exact[i],
            ) implies (#[trigger] close[j]).1 <= exact[i].1 by {
            let x = exact[i].0;
            assert(members.contains(x));
            if indices_of(close).contains(x) {
                let a = choose|a: int| 0 <= a < close.len() && indices_of(close)[a] == x;
                assert(close[a].1 == self.qdist(query, close[a].0 as int));
                assert(close[a] == exact[i]);
            }
            assert(close[j].1 <= self.qdist(query, x as int));
        }
    }

    /// Asked for as many nearest as there are instances, or for more, a
    /// search finds them all.
    pub proof fn lemma_knn_of_all(
        &self,
        members: Seq<usize>,
        query: &T,
        k: nat,
        hits: Seq<(usize, u64)>,
    )
        requires
            members.no_duplicates(),
            k >= members.len(),
            self.is_knn_result(members, query, k, hits),
        ensures
            hits.len() == members.len(),
            forall|x: usize| members.contains(x) ==> indices_of(hits).contains(x),
    {
        vstd::seq_lib::seq_to_set_is_finite(members);
        members.unique_seq_to_set();
        assert forall|x: usize| members.contains(x) implies indices_of(hits).contains(x) by {
            let near = self.nearer(members, query, self.qdist(query, x as int));
            let others = members.to_set().remove(x);
            assert forall|y: usize| near.contains(y) implies others.contains(y) by {}
            lemma_len_subset(near, others);
        }
        self.lemma_pool_of_all(members, query, hits);
    }
}

impl<T: Sync, M: Metric<T> + Sync> VecDataset<T, M> {
    /// Among the members that a list of hits leaves out there is, if there
    /// is any, one that is nearest to the query.
    pub proof fn lemma_nearest_left_out(
        &self,
        members: Seq<usize>,
        query: &T,
        hits: Seq<(usize, u64)>,
        x: usize,
    ) -> (y: usize)
        requires
            members.contains(x),
            !indices_of(hits).contains(x),
        ensures
            members.contains(y),
            !indices_of(hits).contains(y),
            forall|z: usize|
                members.contains(z) && !indices_of(hits).contains(z) ==> self.qdist(
                    query,
                    y as int,
                ) <= #[trigger] self.qdist(query, z as int),
        decreases self.qdist(query, x as int),
    {
        if exists|z: usize|
            members.contains(z) && !indices_of(hits).contains(z) && #[trigger] self.qdist(
                query,
                z as int,
            ) < self.qdist(query, x as int) {
            let z = choose|z: usize|
                members.contains(z) && !indices_of(hits).contains(z) && #[trigger] self.qdist(
                    query,
                    z as int,
                ) < self.qdist(query, x as int);
            self.lemma_nearest_left_out(members, query, hits, z)
        } else {
            x
        }
    }

    /// The shape of the `k` nearest: they are `k` or more, or all members;
    /// no member that is left out is nearer to the query than one of them;
    /// and those behind the `k`-th are as far as the `k`-th.
    pub proof fn lemma_knn_holds_enough(
        &self,
        members: Seq<usize>,
        query: &T,
        k: nat,
        hits: Seq<(usize, u64)>,
    )
        requires
            members.no_duplicates(),
            k >= 1,
            self.is_knn_result(members, query, k, hits),
        ensures
            hits.len() >= k || hits.len() == members.len(),
            forall|x: usize, j: int|
                members.contains(x) && !indices_of(hits).contains(x) && 0 <= j < hits.len() ==> (
                #[trigger] hits[j]).1 <= #[trigger] self.qdist(query, x as int),
            forall|j: int| k <= j < hits.len() ==> (#[trigger] hits[j]).1 == hits[k - 1].1,
    {
        let idx = indices_of(hits);
        vstd::seq_lib::seq_to_set_is_finite(members);
        vstd::seq_lib::seq_to_set_is_finite(idx);
        idx.unique_seq_to_set();
        members.unique_seq_to_set();
        assert forall|x: usize, j: int|
            members.contains(x) && !idx.contains(x) && 0 <= j < hits.len() implies (
        #[trigger] hits[j]).1 <= #[trigger] self.qdist(query, x as int) by {
            let d = self.qdist(query, x as int);
            if hits[j].1 > d {
                let near = self.nearer(members, query, d);
                let far = self.nearer(members, query, hits[j].1);
                assert forall|y: usize| far.contains(y) implies members.to_set().contains(y) by {}
                lemma_len_subset(far, members.to_set());
                assert forall|y: usize| near.contains(y) implies far.contains(y) by {}
                lemma_len_subset(near, far);
                assert(members.contains(hits[j].0));
                assert(idx[j] == hits[j].0);
                assert(idx.contains(hits[j].0));
            }
        }
        if hits.len() < k {
            if exists|x: usize| members.contains(x) && !idx.contains(x) {
                let x = choose|x: usize| members.contains(x) && !idx.contains(x);
                let y = self.lemma_nearest_left_out(members, query, hits, x);
                let near = self.nearer(members, query, self.qdist(query, y as int));
                assert forall|z: usize| near.contains(z) implies idx.to_set().contains(z) by {}
                lemma_len_subset(near, idx.to_set());
            } else {
                self.lemma_pool_of_all(members, query, hits);
            }
        }
        assert forall|j: int| k <= j < hits.len() implies (#[trigger] hits[j]).1 == hits[k
            - 1].1 by {
            assert(comes_before(hits[k - 1], hits[j]));
            if hits[j].1 > hits[k - 1].1 {
                let far = self.nearer(members, query, hits[j].1);
                let front = indices_of(hits.take(k as int)).to_set();
                lemma_prefix_indices(hits, k as int);
                assert forall|y: usize| far.contains(y) implies members.to_set().contains(y) by {}
                lemma_len_subset(far, members.to_set());
                assert forall|y: usize| front.contains(y) implies far.contains(y) by {
                    let i = choose|i: int| 0 <= i < k && (#[trigger] hits[i]).0 == y;
                    if i < k - 1 {
                        assert(comes_before(hits[i], hits[k - 1]));
                    }
                }
                lemma_len_subset(front, far);
                assert(members.contains(hits[j].0));
                assert(idx[j] == hits[j].0);
                assert(idx.contains(hits[j].0));
            }
        }
    }

    /// Of `k` nearest up to ties, those behind the `k`-th are as far as the
    /// `k`-th.
    pub proof fn lemma_knn_up_to_ties_tail(
        &self,
        members: Seq<usize>,
        query: &T,
        k: nat,
        hits: Seq<(usize, u64)>,
    )
        requires
            members.no_duplicates(),
            k >= 1,
            self.is_knn_result_up_to_ties(members, query, k, hits),
        ensures
            forall|j: int| k <= j < hits.len() ==> (#[trigger] hits[j]).1 == hits[k - 1].1,
    {
        vstd::seq_lib::seq_to_set_is_finite(members);
        assert forall|j: int| k <= j < hits.len() implies (#[trigger] hits[j]).1 == hits[k
            - 1].1 by {
            assert(comes_before(hits[k - 1], hits[j]));
            if hits[j].1 > hits[k - 1].1 {
                let far = self.nearer(members, query, hits[j].1);
                let front = indices_of(hits.take(k as int)).to_set();
                lemma_prefix_indices(hits, k as int);
                assert forall|y: usize| far.contains(y) implies members.to_set().contains(y) by {}
                lemma_len_subset(far, members.to_set());
                assert forall|y: usize| front.contains(y) implies far.contains(y) by {
                    let i = choose|i: int| 0 <= i < k && (#[trigger] hits[i]).0 == y;
                    if i < k - 1 {
                        assert(comes_before(hits[i], hits[k - 1]));
                    }
                }
                lemma_len_subset(front, far);
            }
        }
    }

    /// Asked for as many as there are instances, or for more, a search that
    /// finds `k` nearest up to ties finds every instance.
    pub proof fn lemma_knn_up_to_ties_of_all(
        &self,
        members: Seq<usize>,
        query: &T,
        k: nat,
        hits: Seq<(usize, u64)>,
    )
        requires
            members.no_duplicates(),
            k > members.len(),
            self.is_knn_result_up_to_ties(members, query, k, hits),
        ensures
            hits.len() == members.len(),
            forall|x: usize| members.contains(x) ==> indices_of(hits).contains(x),
    {
        let idx = indices_of(hits);
        vstd::seq_lib::seq_to_set_is_finite(members);
        idx.unique_seq_to_set();
        members.unique_seq_to_set();
        assert forall|y: usize| idx.to_set().contains(y) implies members.to_set().contains(y) by {
            let j = choose|j: int| 0 <= j < idx.len() && idx[j] == y;
            assert(members.contains(hits[j].0));
        }
        lemma_len_subset(idx.to_set(), members.to_set());
        vstd::set_lib::lemma_subset_equality(idx.to_set(), members.to_set());
        assert forall|x: usize| members.contains(x) implies idx.contains(x) by {
            assert(members.to_set().contains(x));
        }
    }
}

} // verus!
