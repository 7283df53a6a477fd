//! Counting how often an index occurs: in a list of indices, in a list of
//! hits, and among the instances of a list of clusters.

use vstd::prelude::*;
use crate::cluster::Cluster;

verus! {

/// How often `x` occurs in `s`.
pub open spec fn count_of(s: Seq<usize>, x: usize) -> nat
    decreases s.len(),
{
    if s.len() == 0 {
        0
    } else {
        count_of(s.drop_last(), x) + if s.last() == x {
            1nat
        } else {
            0nat
        }
    }
}

/// The indices of a list of hits.
pub open spec fn indices_of(hits: Seq<(usize, u64)>) -> Seq<usize> {
    Seq::new(hits.len(), |k: int| hits[k].0)
}

/// One if the cluster holds the instance at position `x`, else zero.
pub open spec fn holds(c: &Cluster, x: usize) -> nat {
    if c.members().contains(x) {
        1
    } else {
        0
    }
}

/// In how many of the clusters `cs[from..]` the instance at position `x` is.
pub open spec fn tally(cs: Seq<&Cluster>, from: int, x: usize) -> nat
    decreases cs.len() - from,
{
    if from < 0 || from >= cs.len() {
        0
    } else {
        holds(cs[from], x) + tally(cs, from + 1, x)
    }
}

/// The clusters of a list of clusters with distances.
pub open spec fn clusters_of(pairs: Seq<(&Cluster, u64)>) -> Seq<&Cluster> {
    Seq::new(pairs.len(), |k: int| pairs[k].0)
}

/// The number of clusters in the subtrees of `cs[from..]`.
pub open spec fn weight(cs: Seq<&Cluster>, from: int) -> nat
    decreases cs.len() - from,
{
    if from < 0 || from >= cs.len() {
        0
    } else {
        cs[from].size() + weight(cs, from + 1)
    }
}

/// An index appended to a sequence is counted once more.
pub proof fn lemma_count_push(s: Seq<usize>, y: usize, x: usize)
    ensures
        count_of(s.push(y), x) == count_of(s, x) + if y == x {
            1nat
        } else {
            0nat
        },
{
    assert(s.push(y).drop_last() =~= s);
}

/// In two sequences joined, an index is counted as often as in both.
pub proof fn lemma_count_concat(a: Seq<usize>, b: Seq<usize>, x: usize)
    ensures
        count_of(a + b, x) == count_of(a, x) + count_of(b, x),
    decreases b.len(),
{
    if b.len() == 0 {
        assert(a + b =~= a);
    } else {
        lemma_count_concat(a, b.drop_last(), x);
        assert((a + b).drop_last() =~= a + b.drop_last());
    }
}

/// An index is counted at least once exactly where it occurs.
pub proof fn lemma_count_contains(s: Seq<usize>, x: usize)
    ensures
        count_of(s, x) >= 1 <==> s.contains(x),
    decreases s.len(),
{
    if s.len() > 0 {
        lemma_count_contains(s.drop_last(), x);
        if s.drop_last().contains(x) {
            let j = choose|j: int| 0 <= j < s.drop_last().len() && s.drop_last()[j] == x;
            assert(s[j] == x);
        }
        if s.last() == x {
            assert(s[s.len() - 1] == x);
        }
        if s.contains(x) {
            let j = choose|j: int| 0 <= j < s.len() && s[j] == x;
            if j < s.len() - 1 {
                assert(s.drop_last()[j] == x);
            }
        }
    }
}

/// In a sequence without repetition every index is counted at most once.
pub proof fn lemma_count_no_duplicates(s: Seq<usize>, x: usize)
    requires
        s.no_duplicates(),
    ensures
        count_of(s, x) == if s.contains(x) {
            1nat
        } else {
            0nat
        },
    decreases s.len(),
{
    lemma_count_contains(s, x);
    if s.len() > 0 {
        lemma_count_no_duplicates(s.drop_last(), x);
        lemma_count_contains(s.drop_last(), x);
        if s.last() == x && s.drop_last().contains(x) {
            let j = choose|j: int| 0 <= j < s.drop_last().len() && s.drop_last()[j] == x;
            assert(s[j] == s[s.len() - 1]);
        }
    }
}

/// A sequence in which every index is counted at most once has no
/// repetition.
pub proof fn lemma_counts_give_no_duplicates(s: Seq<usize>)
    requires
        forall|x: usize| count_of(s, x) <= 1,
    ensures
        s.no_duplicates(),
    decreases s.len(),
{
    if s.len() > 0 {
        let front = s.drop_last();
        assert forall|x: usize| count_of(front, x) <= 1 by {
            assert(count_of(s, x) <= 1);
        }
        lemma_counts_give_no_duplicates(front);
        assert(count_of(s, s.last()) <= 1);
        lemma_count_contains(front, s.last());
        assert forall|i: int, j: int| 0 <= i < s.len() && 0 <= j < s.len() && i != j implies s[i]
            != s[j] by {
            if i == s.len() - 1 {
                if s[j] == s[i] {
                    assert(front[j] == s.last());
                }
            } else if j == s.len() - 1 {
                if s[j] == s[i] {
                    assert(front[i] == s.last());
                }
            } else {
                assert(front[i] == s[i] && front[j] == s[j]);
            }
        }
    }
}

/// The indices of hits with one more hit are the indices with one more
/// index.
pub proof fn lemma_indices_push(hits: Seq<(usize, u64)>, h: (usize, u64))
    ensures
        indices_of(hits.push(h)) == indices_of(hits).push(h.0),
{
    assert(indices_of(hits.push(h)) =~= indices_of(hits).push(h.0));
}

/// The indices of two lists of hits joined are their indices joined.
pub proof fn lemma_indices_concat(a: Seq<(usize, u64)>, b: Seq<(usize, u64)>)
    ensures
        indices_of(a + b) == indices_of(a) + indices_of(b),
{
    assert(indices_of(a + b) =~= indices_of(a) + indices_of(b));
}

/// The clusters of a list with one more entry are the clusters with one
/// more cluster.
pub proof fn lemma_clusters_push(pairs: Seq<(&Cluster, u64)>, p: (&Cluster, u64))
    ensures
        clusters_of(pairs.push(p)) == clusters_of(pairs).push(p.0),
{
    assert(clusters_of(pairs.push(p)) =~= clusters_of(pairs).push(p.0));
}

/// A cluster appended to a list is counted with it.
pub proof fn lemma_tally_push(cs: Seq<&Cluster>, c: &Cluster, from: int, x: usize)
    requires
        0 <= from <= cs.len(),
    ensures
        tally(cs.push(c), from, x) == tally(cs, from, x) + holds(c, x),
    decreases cs.len() - from,
{
    if from < cs.len() {
        lemma_tally_push(cs, c, from + 1, x);
        assert(cs.push(c)[from] == cs[from]);
    } else {
        assert(tally(cs.push(c), from + 1, x) == 0);
    }
}

/// A cluster appended to a list adds the clusters under it.
pub proof fn lemma_weight_push(cs: Seq<&Cluster>, c: &Cluster, from: int)
    requires
        0 <= from <= cs.len(),
    ensures
        weight(cs.push(c), from) == weight(cs, from) + c.size(),
    decreases cs.len() - from,
{
    if from < cs.len() {
        lemma_weight_push(cs, c, from + 1);
        assert(cs.push(c)[from] == cs[from]);
    } else {
        assert(weight(cs.push(c), from + 1) == 0);
    }
}

/// What is counted among the first `n + 1` clusters is what is counted among
/// the first `n`, and in the next.
pub proof fn lemma_tally_take(cs: Seq<&Cluster>, n: int, x: usize)
    requires
        0 <= n < cs.len(),
    ensures
        tally(cs.take(n + 1), 0, x) == tally(cs.take(n), 0, x) + holds(cs[n], x),
{
    assert(cs.take(n + 1) =~= cs.take(n).push(cs[n]));
    lemma_tally_push(cs.take(n), cs[n], 0, x);
}

/// What is counted from `from` on once the cluster at `i` is taken out of
/// the list: the same without that cluster, if it was counted.
pub proof fn lemma_tally_remove(cs: Seq<&Cluster>, i: int, from: int, x: usize)
    requires
        0 <= i < cs.len(),
        0 <= from <= cs.len(),
    ensures
        from <= i ==> tally(cs.remove(i), from, x) + holds(cs[i], x) == tally(cs, from, x),
        from > i ==> tally(cs.remove(i), from - 1, x) == tally(cs, from, x),
    decreases cs.len() - from,
{
    let rest = cs.remove(i);
    if from < cs.len() {
        lemma_tally_remove(cs, i, from + 1, x);
        if from > i {
            assert(rest[from - 1] == cs[from]);
        } else if from < i {
            assert(rest[from] == cs[from]);
        }
    }
}

/// The clusters under a list from `from` on once the cluster at `i` is taken
/// out of the list.
pub proof fn lemma_weight_remove(cs: Seq<&Cluster>, i: int, from: int)
    requires
        0 <= i < cs.len(),
        0 <= from <= cs.len(),
    ensures
        from <= i ==> weight(cs.remove(i), from) + cs[i].size() == weight(cs, from),
        from > i ==> weight(cs.remove(i), from - 1) == weight(cs, from),
    decreases cs.len() - from,
{
    let rest = cs.remove(i);
    if from < cs.len() {
        lemma_weight_remove(cs, i, from + 1);
        if from > i {
            assert(rest[from - 1] == cs[from]);
        } else if from < i {
            assert(rest[from] == cs[from]);
        }
    }
}

/// An instance that is counted among the clusters is in one of them.
pub proof fn lemma_tally_witness(cs: Seq<&Cluster>, from: int, x: usize) -> (j: int)
    requires
        0 <= from,
        tally(cs, from, x) >= 1,
    ensures
        from <= j < cs.len(),
        cs[j].members().contains(x),
    decreases cs.len() - from,
{
    if cs[from].members().contains(x) {
        from
    } else {
        lemma_tally_witness(cs, from + 1, x)
    }
}

/// An index put into a sequence is counted once more.
pub proof fn lemma_count_insert(s: Seq<usize>, pos: int, y: usize, x: usize)
    requires
        0 <= pos <= s.len(),
    ensures
        count_of(s.insert(pos, y), x) == count_of(s, x) + if y == x {
            1nat
        } else {
            0nat
        },
{
    let front = s.take(pos);
    let back = s.skip(pos);
    assert(s =~= front + back);
    assert(s.insert(pos, y) =~= front.push(y) + back);
    lemma_count_concat(front, back, x);
    lemma_count_concat(front.push(y), back, x);
    lemma_count_push(front, y, x);
}

/// The indices of hits with a hit put in are the indices with its index
/// put in.
pub proof fn lemma_indices_insert(hits: Seq<(usize, u64)>, pos: int, h: (usize, u64))
    requires
        0 <= pos <= hits.len(),
    ensures
        indices_of(hits.insert(pos, h)) == indices_of(hits).insert(pos, h.0),
{
    assert(indices_of(hits.insert(pos, h)) =~= indices_of(hits).insert(pos, h.0));
}

/// The clusters of a list with an entry taken out are the clusters with
/// that cluster taken out.
pub proof fn lemma_clusters_remove(pairs: Seq<(&Cluster, u64)>, i: int)
    requires
        0 <= i < pairs.len(),
    ensures
        clusters_of(pairs.remove(i)) == clusters_of(pairs).remove(i),
{
    assert(clusters_of(pairs.remove(i)) =~= clusters_of(pairs).remove(i));
}

/// An instance that is in the cluster at `i` is counted at least once from
/// `from` on, and at least twice if it is in the cluster at `j` too.
pub proof fn lemma_tally_at_least(cs: Seq<&Cluster>, from: int, i: int, j: int, x: usize)
    requires
        0 <= from <= i < cs.len(),
        i <= j < cs.len(),
        cs[i].members().contains(x),
        cs[j].members().contains(x),
    ensures
        tally(cs, from, x) >= 1,
        i < j ==> tally(cs, from, x) >= 2,
    decreases cs.len() - from,
{
    if from < i {
        lemma_tally_at_least(cs, from + 1, i, j, x);
    } else if i < j {
        lemma_tally_at_least(cs, i + 1, j, j, x);
    }
}

} // verus!
