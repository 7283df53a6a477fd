//! Nearest-neighbour search by opening clusters nearest first.

use vstd::prelude::*;
use crate::cluster::Cluster;
use crate::counting::{
    clusters_of,
    count_of,
    holds,
    indices_of,
    lemma_clusters_push,
    lemma_clusters_remove,
    lemma_count_contains,
    lemma_count_insert,
    lemma_counts_give_no_duplicates,
    lemma_indices_insert,
    lemma_tally_push,
    lemma_tally_remove,
    lemma_tally_witness,
    lemma_weight_push,
    lemma_weight_remove,
    tally,
    weight,
};
use crate::dataset::VecDataset;
use crate::metric::Metric;
use crate::nearest::{comes_before, cut_ties, is_ordered, is_tie_cut};
use crate::tree::Tree;

verus! {

/// The least distance that an instance of a cluster can have from the
/// query, if the center of the cluster is at distance `d` from the query and
/// its radius is `radius`: `d - radius`, and zero where that is negative.
pub open spec fn lower_bound_of(d: u64, radius: u64) -> u64 {
    if d > radius {
        (d - radius) as u64
    } else {
        0
    }
}

impl Cluster {
    /// No instance of a cluster is nearer to the query than the lower bound
    /// of the cluster.
    pub proof fn lemma_lower_bound<T: Sync, M: Metric<T> + Sync>(
        &self,
        data: &VecDataset<T, M>,
        query: &T,
        x: usize,
    )
        requires
            self.node_ok(data),
            data.is_metric_for(query),
            self.members().contains(x),
        ensures
            data.qdist(query, x as int) >= lower_bound_of(
                data.qdist(query, self.arg_center as int),
                self.radius,
            ),
    {
        self.lemma_center_in_range(data);
        let m = self.members();
        let i = choose|i: int| 0 <= i < m.len() && m[i] == x;
        assert(m[i] < data.len());
        assert(data.dist(self.arg_center as int, m[i] as int) <= self.radius);
        assert(data.dist(x as int, self.arg_center as int) == data.dist(
            self.arg_center as int,
            x as int,
        ));
    }
}

/// Puts a hit into an ordered list of hits, at its place.
pub fn insert_hit(pool: &mut Vec<(usize, u64)>, h: (usize, u64))
    requires
        is_ordered(old(pool)@),
    ensures
        is_ordered(final(pool)@),
        exists|pos: int|
            0 <= pos <= old(pool)@.len() && final(pool)@ == #[trigger] old(pool)@.insert(pos, h),
{
    let mut pos: usize = 0;
    while pos < pool.len() && (pool[pos].1 < h.1 || (pool[pos].1 == h.1 && pool[pos].0 <= h.0))
        invariant
            pos <= pool@.len(),
            pool@ == old(pool)@,
            forall|j: int| 0 <= j < pos ==> comes_before(#[trigger] pool@[j], h),
        decreases pool@.len() - pos,
    {
        pos += 1;
    }
    pool.insert(pos, h);
    proof {
        let before = old(pool)@;
        let after = pool@;
        assert(after == before.insert(pos as int, h));
        assert forall|i: int, j: int| 0 <= i < j < after.len() implies comes_before(
            #[trigger] after[i],
            #[trigger] after[j],
        ) by {
            if j < pos {
                assert(comes_before(before[i], before[j]));
            } else if j == pos {
                assert(comes_before(before[i], h));
            } else if i < pos {
                assert(comes_before(before[i], before[j - 1]));
            } else if i == pos {
                assert(!comes_before(before[pos as int], h));
                if j - 1 > pos {
                    assert(comes_before(before[pos as int], before[j - 1]));
                }
            } else {
                assert(comes_before(before[i - 1], before[j - 1]));
            }
        }
    }
}

/// The least that an instance of the cluster can be away from the query.
pub fn lower_bound<T: Sync, M: Metric<T> + Sync>(data: &VecDataset<T, M>, c: &Cluster, query: &T) -> (lb:
    u64)
    requires
        data.wf(),
        c.node_ok(data),
    ensures
        lb == lower_bound_of(data.qdist(query, c.arg_center as int), c.radius),
{
    proof {
        c.lemma_center_in_range(data);
    }
    let d = c.distance_to_instance(data, query);
    if d > c.radius {
        d - c.radius
    } else {
        0
    }
}

/// The `k` nearest instances by a best-first descent of the tree.
///
/// The clusters wait in a queue, each with the least distance that any of
/// its instances can have from the query. The cluster with the least such
/// bound is opened: a leaf gives its instances to the candidates, a parent
/// puts its children in the queue. The search ends when the queue is empty,
/// or when there are `k` candidates and the `k`-th of them is no farther
/// than the least bound in the queue.
///
/// Every hit carries its true distance. Where the metric keeps its promises
/// to the query, the hits are `k` nearest up to ties with the farthest of
/// them.
pub fn sieve<T: Sync, M: Metric<T> + Sync>(tree: &Tree<T, M>, query: &T, k: usize) -> (res: Vec<
    (usize, u64),
>)
    requires
        tree.wf(),
        tree.root.built,
        k >= 1,
    ensures
        is_ordered(res@),
        indices_of(res@).no_duplicates(),
        tree.data.are_true_hits(tree.root.members(), query, res@),
        tree.data.is_metric_for(query) ==> tree.data.is_knn_result_up_to_ties(
            tree.root.members(),
            query,
            k as nat,
            res@,
        ),
{
    let data = &tree.data;
    let root = &tree.root;
    let ghost members = root.members();
    let mut queue: Vec<(&Cluster, u64)> = Vec::new();
    let mut pool: Vec<(usize, u64)> = Vec::new();
    let first = lower_bound(data, root, query);
    queue.push((root, first));
    let ghost mut bound: int = 0;
    let ghost mut closed: bool = false;
    proof {
        assert(clusters_of(queue@) =~= seq![root]);
        assert(indices_of(pool@) =~= Seq::empty());
        assert forall|x: usize|
            count_of(indices_of(pool@), x) + #[trigger] tally(clusters_of(queue@), 0, x) == holds(
                root,
                x,
            ) by {
            assert(tally(clusters_of(queue@), 1, x) == 0);
        }
    }
    loop
        invariant
            data.wf(),
            root.wf(data),
            members == root.members(),
            k >= 1,
            forall|j: int|
                0 <= j < queue@.len() ==> (#[trigger] queue@[j]).0.wf(data) && queue@[j].1
                    == lower_bound_of(
                    data.qdist(query, queue@[j].0.arg_center as int),
                    queue@[j].0.radius,
                ),
            is_ordered(pool@),
            data.are_true_hits(members, query, pool@),
            forall|x: usize|
                count_of(indices_of(pool@), x) + #[trigger] tally(clusters_of(queue@), 0, x)
                    == holds(root, x),
        ensures
            is_ordered(pool@),
            data.are_true_hits(members, query, pool@),
            forall|x: usize| #[trigger] count_of(indices_of(pool@), x) <= holds(root, x),
            if closed {
                &&& pool@.len() >= k
                &&& pool@[k - 1].1 <= bound
                &&& data.is_metric_for(query) ==> forall|y: usize|
                    members.contains(y) && !indices_of(pool@).contains(y) ==> #[trigger] data.qdist(
                        query,
                        y as int,
                    ) >= bound
            } else {
                forall|y: usize| members.contains(y) ==> indices_of(pool@).contains(y)
            },
        decreases weight(clusters_of(queue@), 0),
    {
        if queue.len() == 0 {
            proof {
                closed = false;
                assert forall|y: usize| members.contains(y) implies indices_of(pool@).contains(
                    y,
                ) by {
                    assert(tally(clusters_of(queue@), 0, y) == 0);
                    lemma_count_contains(indices_of(pool@), y);
                }
                assert forall|x: usize| #[trigger]
                    count_of(indices_of(pool@), x) <= holds(root, x) by {
                    assert(tally(clusters_of(queue@), 0, x) == 0);
                }
            }
            break;
        }
        let mut least: usize = 0;
        let mut j: usize = 1;
        while j < queue.len()
            invariant
                1 <= j <= queue@.len(),
                least < queue@.len(),
                forall|i: int| 0 <= i < j ==> queue@[least as int].1 <= (#[trigger] queue@[i]).1,
            decreases queue@.len() - j,
        {
            if queue[j].1 < queue[least].1 {
                least = j;
            }
            j += 1;
        }
        if pool.len() >= k && pool[k - 1].1 <= queue[least].1 {
            proof {
                closed = true;
                bound = queue@[least as int].1 as int;
                assert forall|x: usize| #[trigger]
                    count_of(indices_of(pool@), x) <= holds(root, x) by {
                    assert(count_of(indices_of(pool@), x) + tally(clusters_of(queue@), 0, x)
                        == holds(root, x));
                }
                if data.is_metric_for(query) {
                    assert forall|y: usize|
                        members.contains(y) && !indices_of(pool@).contains(
                            y,
                        ) implies #[trigger] data.qdist(query, y as int) >= bound by {
                        lemma_count_contains(indices_of(pool@), y);
                        assert(count_of(indices_of(pool@), y) + tally(clusters_of(queue@), 0, y)
                            == holds(root, y));
                        let i = lemma_tally_witness(clusters_of(queue@), 0, y);
                        assert(queue@[i].0.wf(data));
                        queue@[i].0.lemma_lower_bound(data, query, y);
                    }
                }
            }
            break;
        }
        let ghost before = queue@;
        let ghost pool_before = pool@;
        let (c, _) = queue.remove(least);
        proof {
            lemma_clusters_remove(before, least as int);
            lemma_weight_remove(clusters_of(before), least as int, 0);
            assert(c.wf(data));
            c.lemma_wf_shape(data);
            assert forall|x: usize|
                #[trigger] tally(clusters_of(queue@), 0, x) + holds(c, x) == tally(
                    clusters_of(before),
                    0,
                    x,
                ) by {
                lemma_tally_remove(clusters_of(before), least as int, 0, x);
            }
            assert forall|j: int| 0 <= j < queue@.len() implies (#[trigger] queue@[j]).0.wf(data)
                && queue@[j].1 == lower_bound_of(
                data.qdist(query, queue@[j].0.arg_center as int),
                queue@[j].0.radius,
            ) by {
                if j < least {
                    assert(queue@[j] == before[j]);
                } else {
                    assert(queue@[j] == before[j + 1]);
                }
            }
        }
        proof {
            assert forall|x: usize| c.members().contains(x) implies members.contains(x) by {
                assert(tally(clusters_of(queue@), 0, x) + holds(c, x) == tally(
                    clusters_of(before),
                    0,
                    x,
                ));
                assert(count_of(indices_of(pool_before), x) + tally(clusters_of(before), 0, x)
                    == holds(root, x));
            }
        }
        match c.children() {
            None => {
                let inside = c.indices();
                let distances = data.query_to_many(query, inside.as_slice());
                let mut i: usize = 0;
                while i < inside.len()
                    invariant
                        i <= inside@.len(),
                        inside@ == c.members(),
                        inside@.no_duplicates(),
                        distances@ == data.query_distances(query, inside@),
                        forall|x: usize| c.members().contains(x) ==> members.contains(x),
                        is_ordered(pool@),
                        data.are_true_hits(members, query, pool@),
                        forall|x: usize| #[trigger]
                            count_of(indices_of(pool@), x) == count_of(indices_of(pool_before), x)
                                + if inside@.take(i as int).contains(x) {
                                1nat
                            } else {
                                0nat
                            },
                    decreases inside@.len() - i,
                {
                    let ghost old_pool = pool@;
                    let h = (inside[i], distances[i]);
                    insert_hit(&mut pool, h);
                    proof {
                        let pos = choose|pos: int|
                            0 <= pos <= old_pool.len() && pool@ == #[trigger] old_pool.insert(
                                pos,
                                h,
                            );
                        lemma_indices_insert(old_pool, pos, h);
                        assert(inside@.contains(inside@[i as int]));
                        assert forall|j: int| 0 <= j < pool@.len() implies members.contains(
                            (#[trigger] pool@[j]).0,
                        ) && pool@[j].1 == data.qdist(query, pool@[j].0 as int) by {
                            if j < pos {
                                assert(pool@[j] == old_pool[j]);
                            } else if j > pos {
                                assert(pool@[j] == old_pool[j - 1]);
                            }
                        }
                        let front = inside@.take(i as int);
                        let next = inside@.take(i as int + 1);
                        assert(next =~= front.push(inside@[i as int]));
                        assert(!front.contains(inside@[i as int])) by {
                            if front.contains(inside@[i as int]) {
                                let a = choose|a: int|
                                    0 <= a < front.len() && front[a] == inside@[i as int];
                                assert(inside@[a] == inside@[i as int]);
                            }
                        }
                        assert forall|x: usize| #[trigger]
                            count_of(indices_of(pool@), x) == count_of(indices_of(pool_before), x)
                                + if next.contains(x) {
                                1nat
                            } else {
                                0nat
                            } by {
                            lemma_count_insert(indices_of(old_pool), pos, h.0, x);
                            if front.contains(x) {
                                let a = choose|a: int| 0 <= a < front.len() && front[a] == x;
                                assert(next[a] == x);
                            }
                            if x == h.0 {
                                assert(next[i as int] == x);
                            }
                            if next.contains(x) && x != h.0 {
                                let a = choose|a: int| 0 <= a < next.len() && next[a] == x;
                                assert(front[a] == x);
                            }
                        }
                    }
                    i += 1;
                }
                proof {
                    assert(inside@.take(i as int) =~= inside@);
                    assert(clusters_of(before)[least as int] == c);
                }
            },
            Some((left, right)) => {
                proof {
                    let kids = c.children->Some_0;
                    assert(c.split_ok(&*kids, data));
                    assert(kids.left.wf(data) && kids.right.wf(data));
                }
                let to_left = lower_bound(data, left, query);
                let to_right = lower_bound(data, right, query);
                let ghost mid = queue@;
                queue.push((left, to_left));
                queue.push((right, to_right));
                proof {
                    lemma_clusters_push(mid, (left, to_left));
                    lemma_clusters_push(mid.push((left, to_left)), (right, to_right));
                    lemma_weight_push(clusters_of(mid), left, 0);
                    lemma_weight_push(clusters_of(mid).push(left), right, 0);
                    assert(c.size() == 1 + left.size() + right.size());
                    assert forall|x: usize|
                        count_of(indices_of(pool@), x) + #[trigger] tally(
                            clusters_of(queue@),
                            0,
                            x,
                        ) == holds(root, x) by {
                        lemma_tally_push(clusters_of(mid), left, 0, x);
                        lemma_tally_push(clusters_of(mid).push(left), right, 0, x);
                        c.lemma_children_share(data, x);
                        assert(tally(clusters_of(mid), 0, x) + holds(c, x) == tally(
                            clusters_of(before),
                            0,
                            x,
                        ));
                    }
                    assert forall|j: int| 0 <= j < queue@.len() implies (
                    #[trigger] queue@[j]).0.wf(data) && queue@[j].1 == lower_bound_of(
                        data.qdist(query, queue@[j].0.arg_center as int),
                        queue@[j].0.radius,
                    ) by {
                        if j < mid.len() {
                            assert(queue@[j] == mid[j]);
                        }
                    }
                }
            },
        }
        proof {
            if c.children is None {
                assert forall|x: usize|
                    count_of(indices_of(pool@), x) + #[trigger] tally(clusters_of(queue@), 0, x)
                        == holds(root, x) by {
                    assert(tally(clusters_of(queue@), 0, x) + holds(c, x) == tally(
                        clusters_of(before),
                        0,
                        x,
                    ));
                    assert(count_of(indices_of(pool_before), x) + tally(
                        clusters_of(before),
                        0,
                        x,
                    ) == holds(root, x));
                }
            }
        }
    }
    let ghost s = pool@;
    let res = cut_ties(pool, k);
    proof {
        let n = choose|n: nat| #[trigger] is_tie_cut(s, k as nat, n) && res@ == s.take(n as int);
        assert forall|x: usize| count_of(indices_of(s), x) <= 1 by {
            assert(count_of(indices_of(s), x) <= holds(root, x));
        }
        lemma_counts_give_no_duplicates(indices_of(s));
        assert forall|i: int, j: int| 0 <= i < res@.len() && 0 <= j < res@.len() && i
            != j implies indices_of(res@)[i] != indices_of(res@)[j] by {
            assert(indices_of(s)[i] != indices_of(s)[j]);
        }
        if data.is_metric_for(query) {
            if closed {
                assert(data.is_pool(members, query, s, bound));
                data.lemma_cut_is_knn_up_to_ties(members, query, s, bound, k as nat, n);
            } else {
                assert(data.is_pool(members, query, s, 0));
                if s.len() >= k {
                    assert(data.is_pool(members, query, s, s[k - 1].1 as int));
                    data.lemma_cut_is_knn_up_to_ties(
                        members,
                        query,
                        s,
                        s[k - 1].1 as int,
                        k as nat,
                        n,
                    );
                } else {
                    data.lemma_cut_is_knn_up_to_ties(members, query, s, 0, k as nat, n);
                }
            }
        }
    }
    res
}

} // verus!
