//! An in-memory dataset: instances, the metric that compares them, and the
//! order in which they are currently laid out.

use vstd::prelude::*;
use crate::error::ClamError;
use crate::metric::Metric;

verus! {

/// Fan-outs shorter than this are computed on the calling thread when the
/// metric is cheap.
pub const PARALLEL_THRESHOLD: usize = 10_000;

/// `p` lists every number below `n` exactly once.
pub open spec fn is_permutation(p: Seq<usize>, n: nat) -> bool {
    &&& p.len() == n
    &&& forall|k: int| 0 <= k < p.len() ==> #[trigger] p[k] < n
    &&& p.no_duplicates()
}

/// Every index of `indices` is below `n`.
pub open spec fn all_below(indices: Seq<usize>, n: nat) -> bool {
    forall|k: int| 0 <= k < indices.len() ==> #[trigger] indices[k] < n
}

/// Instances held in memory, compared by the metric `M`.
///
/// Instances are addressed by position. Reordering changes which instance a
/// position holds; the instances themselves never move in memory.
pub struct VecDataset<T, M: Metric<T>> {
    /// A name for the dataset.
    pub name: String,
    /// The instances, in the order in which they were given.
    pub data: Vec<T>,
    /// The distance function.
    pub metric: M,
    /// The positions `0, 1, .., len - 1`.
    pub indices: Vec<usize>,
    /// `order[k]` is the place in `data` of the instance at position `k`.
    pub order: Vec<usize>,
    /// `moved[i]` is where the last permutation put the instance that was at
    /// position `i` before it.
    pub moved: Vec<usize>,
}

impl<T: Sync, M: Metric<T> + Sync> VecDataset<T, M> {
    /// The number of instances.
    pub open spec fn len(&self) -> nat {
        self.data@.len()
    }

    /// The internal tables are consistent.
    pub open spec fn wf(&self) -> bool {
        &&& self.data@.len() <= usize::MAX
        &&& self.order@.len() == self.data@.len()
        &&& self.moved@.len() == self.data@.len()
        &&& self.indices@.len() == self.data@.len()
        &&& forall|k: int| 0 <= k < self.indices@.len() ==> #[trigger] self.indices@[k] == k
        &&& all_below(self.order@, self.len())
        &&& all_below(self.moved@, self.len())
    }

    /// The instance at position `i`.
    pub open spec fn instance(&self, i: int) -> T {
        self.data@[self.order@[i] as int]
    }

    /// The distance between the instances at positions `i` and `j`.
    pub open spec fn dist(&self, i: int, j: int) -> u64 {
        self.metric.distance(&self.instance(i), &self.instance(j))
    }

    /// The distance from `query` to the instance at position `i`.
    pub open spec fn qdist(&self, query: &T, i: int) -> u64 {
        self.metric.distance(query, &self.instance(i))
    }

    /// Where the last permutation put the instance that was at position `i`.
    pub open spec fn reordered_index(&self, i: int) -> usize {
        self.moved@[i]
    }

    /// The distances from position `i` to each of `js`, in the order of `js`.
    pub open spec fn distances_from(&self, i: int, js: Seq<usize>) -> Seq<u64> {
        Seq::new(js.len(), |k: int| self.dist(i, js[k] as int))
    }

    /// The distances from `query` to each of `is`, in the order of `is`.
    pub open spec fn query_distances(&self, query: &T, is: Seq<usize>) -> Seq<u64> {
        Seq::new(is.len(), |k: int| self.qdist(query, is[k] as int))
    }

    /// `out` holds the distances from position `i` to each of `js`.
    pub open spec fn is_fan_out(&self, i: int, js: Seq<usize>, out: Seq<u64>) -> bool {
        out =~= self.distances_from(i, js)
    }

    /// `out` holds the distances from `query` to each of `is`.
    pub open spec fn is_query_fan_out(&self, query: &T, is: Seq<usize>, out: Seq<u64>) -> bool {
        out =~= self.query_distances(query, is)
    }

    /// Distances between stored instances do not depend on the direction.
    pub open spec fn is_symmetric(&self) -> bool {
        forall|i: int, j: int|
            0 <= i < self.len() && 0 <= j < self.len() ==> #[trigger] self.dist(i, j) == self.dist(
                j,
                i,
            )
    }

    /// Every stored instance is at distance zero from itself.
    pub open spec fn is_reflexive(&self) -> bool {
        forall|i: int| 0 <= i < self.len() ==> #[trigger] self.dist(i, i) == 0
    }

    /// Stored instances obey the triangle inequality.
    pub open spec fn obeys_triangle(&self) -> bool {
        forall|i: int, j: int, k: int|
            0 <= i < self.len() && 0 <= j < self.len() && 0 <= k < self.len() ==> self.dist(i, k)
                <= #[trigger] self.dist(i, j) + #[trigger] self.dist(j, k)
    }

    /// No two different positions hold instances at distance zero.
    pub open spec fn separates(&self) -> bool {
        forall|i: int, j: int|
            0 <= i < self.len() && 0 <= j < self.len() && i != j ==> #[trigger] self.dist(i, j)
                != 0
    }

    /// `query` obeys the triangle inequality together with any two stored
    /// instances: the way to one of them is not longer by way of the other.
    pub open spec fn query_obeys_triangle(&self, query: &T) -> bool {
        forall|i: int, j: int|
            0 <= i < self.len() && 0 <= j < self.len() ==> self.qdist(query, j) <= self.qdist(
                query,
                i,
            ) + #[trigger] self.dist(i, j)
    }

    /// The space is flat enough for two poles to split it by a hyperplane.
    ///
    /// Whenever an instance `x` is no farther from the pole `f` than from the
    /// pole `n`, the query is at least as far from `x` as it is from the
    /// hyperplane that bisects the two poles:
    /// `d(q, f)^2 - d(q, n)^2 <= 2 * d(f, n) * d(q, x)`.
    /// Euclidean distances have this property; the triangle inequality alone
    /// does not give it.
    pub open spec fn query_bisects(&self, query: &T) -> bool {
        forall|f: int, n: int, x: int|
            0 <= f < self.len() && 0 <= n < self.len() && 0 <= x < self.len() && #[trigger] self.dist(
                f,
                x,
            ) <= #[trigger] self.dist(n, x) ==> (self.qdist(query, f) + self.qdist(query, n)) * (
            self.qdist(query, f) - self.qdist(query, n)) <= 2 * self.dist(f, n) * self.qdist(
                query,
                x,
            )
    }

    /// A dataset of the given instances, in the given order.
    pub fn new(name: String, data: Vec<T>, metric: M) -> (res: Self)
        ensures
            res.wf(),
            res.name == name,
            res.data == data,
            res.metric == metric,
            res.len() == data@.len(),
            forall|k: int| 0 <= k < data@.len() ==> #[trigger] res.instance(k) == data@[k],
            forall|k: int| 0 <= k < data@.len() ==> #[trigger] res.reordered_index(k) == k,
    {
        let n = data.len();
        let indices = identity(n);
        let order = identity(n);
        let moved = identity(n);
        VecDataset { name, data, metric, indices, order, moved }
    }

    /// The name given at construction.
    pub fn name(&self) -> (res: &String)
        ensures
            *res == self.name,
    {
        &self.name
    }

    /// The number of instances.
    pub fn cardinality(&self) -> (n: usize)
        ensures
            n == self.len(),
    {
        self.data.len()
    }

    /// The positions `0, 1, .., len - 1`.
    pub fn indices(&self) -> (res: &Vec<usize>)
        requires
            self.wf(),
        ensures
            res@.len() == self.len(),
            forall|k: int| 0 <= k < res@.len() ==> #[trigger] res@[k] == k,
    {
        &self.indices
    }

    /// Whether the metric asks for parallel fan-outs.
    pub fn is_metric_expensive(&self) -> (b: bool)
        ensures
            b == self.metric.expensive(),
    {
        self.metric.is_expensive()
    }

    /// The instance at position `i`.
    pub fn get(&self, i: usize) -> (res: &T)
        requires
            self.wf(),
            i < self.len(),
        ensures
            *res == self.instance(i as int),
    {
        &self.data[self.order[i]]
    }

    /// The distance between the instances at positions `i` and `j`.
    pub fn one_to_one(&self, i: usize, j: usize) -> (d: u64)
        requires
            self.wf(),
            i < self.len(),
            j < self.len(),
        ensures
            d == self.dist(i as int, j as int),
    {
        self.metric.one_to_one(self.get(i), self.get(j))
    }

    /// The distance from `query` to the instance at position `i`.
    pub fn query_to_one(&self, query: &T, i: usize) -> (d: u64)
        requires
            self.wf(),
            i < self.len(),
        ensures
            d == self.qdist(query, i as int),
    {
        self.metric.one_to_one(query, self.get(i))
    }

    /// Whether the instances at the two positions are at distance zero.
    pub fn are_instances_equal(&self, left: usize, right: usize) -> (res: bool)
        requires
            self.wf(),
            left < self.len(),
            right < self.len(),
        ensures
            res == (self.dist(left as int, right as int) == 0),
    {
        self.one_to_one(left, right) == 0
    }

    /// The distances from each of `left` to each of `right`: one row for each
    /// of `left`, in order.
    pub fn many_to_many(&self, left: &[usize], right: &[usize]) -> (out: Vec<Vec<u64>>)
        requires
            self.wf(),
            all_below(left@, self.len()),
            all_below(right@, self.len()),
        ensures
            out@.len() == left@.len(),
            forall|k: int|
                0 <= k < left@.len() ==> (#[trigger] out@[k])@ == self.distances_from(
                    left@[k] as int,
                    right@,
                ),
    {
        let mut out: Vec<Vec<u64>> = Vec::with_capacity(left.len());
        let mut k: usize = 0;
        while k < left.len()
            invariant
                self.wf(),
                all_below(left@, self.len()),
                all_below(right@, self.len()),
                k <= left@.len(),
                out@.len() == k,
                forall|j: int|
                    0 <= j < k ==> (#[trigger] out@[j])@ == self.distances_from(
                        left@[j] as int,
                        right@,
                    ),
            decreases left@.len() - k,
        {
            let row = self.one_to_many(left[k], right);
            out.push(row);
            k += 1;
        }
        out
    }

    /// The distances between all pairs of the given instances.
    pub fn pairwise(&self, indices: &[usize]) -> (out: Vec<Vec<u64>>)
        requires
            self.wf(),
            all_below(indices@, self.len()),
        ensures
            out@.len() == indices@.len(),
            forall|k: int|
                0 <= k < indices@.len() ==> (#[trigger] out@[k])@ == self.distances_from(
                    indices@[k] as int,
                    indices@,
                ),
    {
        self.many_to_many(indices, indices)
    }

    /// The distances from position `i` to each of `js`, in the order of `js`.
    ///
    /// The work is spread over threads when the metric is expensive or the
    /// list is long.
    pub fn one_to_many(&self, i: usize, js: &[usize]) -> (out: Vec<u64>)
        requires
            self.wf(),
            i < self.len(),
            all_below(js@, self.len()),
        ensures
            out@ == self.distances_from(i as int, js@),
    {
        if self.is_metric_expensive() || js.len() >= PARALLEL_THRESHOLD {
            return self.par_one_to_many(i, js);
        }
        let mut out: Vec<u64> = Vec::with_capacity(js.len());
        let mut k: usize = 0;
        while k < js.len()
            invariant
                self.wf(),
                i < self.len(),
                all_below(js@, self.len()),
                k <= js@.len(),
                self.is_fan_out(i as int, js@.take(k as int), out@),
            decreases js@.len() - k,
        {
            let d = self.one_to_one(i, js[k]);
            out.push(d);
            k += 1;
        }
        proof {
            assert(js@.take(k as int) =~= js@);
        }
        out
    }

    /// The distances from `query` to each of `is`, in the order of `is`.
    ///
    /// The work is spread over threads when the metric is expensive or the
    /// list is long.
    pub fn query_to_many(&self, query: &T, is: &[usize]) -> (out: Vec<u64>)
        requires
            self.wf(),
            all_below(is@, self.len()),
        ensures
            out@ == self.query_distances(query, is@),
    {
        if self.is_metric_expensive() || is.len() >= PARALLEL_THRESHOLD {
            return self.par_query_to_many(query, is);
        }
        let mut out: Vec<u64> = Vec::with_capacity(is.len());
        let mut k: usize = 0;
        while k < is.len()
            invariant
                self.wf(),
                all_below(is@, self.len()),
                k <= is@.len(),
                self.is_query_fan_out(query, is@.take(k as int), out@),
            decreases is@.len() - k,
        {
            let d = self.query_to_one(query, is[k]);
            out.push(d);
            k += 1;
        }
        proof {
            assert(is@.take(k as int) =~= is@);
        }
        out
    }

    /// Hands the distances from position `i` to each of `js` to rayon's
    /// parallel iterator (`par_iter`, `map`, `collect`), which keeps the order
    /// of `js`; each distance is one call of [`Self::one_to_one`].
    #[verifier::external_body]
    fn par_one_to_many(&self, i: usize, js: &[usize]) -> (out: Vec<u64>)
        requires
            self.wf(),
            i < self.len(),
            all_below(js@, self.len()),
        ensures
            out@ == self.distances_from(i as int, js@),
    {
        rayon::iter::ParallelIterator::collect(
            rayon::iter::ParallelIterator::map(
                rayon::iter::IntoParallelRefIterator::par_iter(js),
                |j: &usize| self.one_to_one(i, *j),
            ),
        )
    }

    /// Hands the distances from `query` to each of `is` to rayon's parallel
    /// iterator (`par_iter`, `map`, `collect`), which keeps the order of `is`;
    /// each distance is one call of [`Self::query_to_one`].
    #[verifier::external_body]
    fn par_query_to_many(&self, query: &T, is: &[usize]) -> (out: Vec<u64>)
        requires
            self.wf(),
            all_below(is@, self.len()),
        ensures
            out@ == self.query_distances(query, is@),
    {
        rayon::iter::ParallelIterator::collect(
            rayon::iter::ParallelIterator::map(
                rayon::iter::IntoParallelRefIterator::par_iter(is),
                |i: &usize| self.query_to_one(query, *i),
            ),
        )
    }

    /// Exchanges the instances at positions `i` and `j`.
    pub fn swap(&mut self, i: usize, j: usize)
        requires
            old(self).wf(),
            i < old(self).len(),
            j < old(self).len(),
        ensures
            final(self).wf(),
            final(self).len() == old(self).len(),
            final(self).data == old(self).data,
            final(self).metric == old(self).metric,
            final(self).moved == old(self).moved,
            final(self).instance(i as int) == old(self).instance(j as int),
            final(self).instance(j as int) == old(self).instance(i as int),
            forall|k: int|
                0 <= k < old(self).len() && k != i && k != j ==> #[trigger] final(self).instance(k)
                    == old(self).instance(k),
    {
        let a = self.order[i];
        let b = self.order[j];
        self.order.set(i, b);
        self.order.set(j, a);
    }

    /// Lays the instances out anew: position `k` gets the instance that is now
    /// at position `p[k]`.
    ///
    /// Refused, with nothing changed, unless `p` is a permutation of the
    /// positions.
    pub fn set_permutation(&mut self, p: &[usize]) -> (res: Result<(), ClamError>)
        requires
            old(self).wf(),
        ensures
            final(self).wf(),
            final(self).len() == old(self).len(),
            final(self).data == old(self).data,
            final(self).metric == old(self).metric,
            res is Ok <==> is_permutation(p@, old(self).len()),
            res is Err ==> res == Err::<(), ClamError>(ClamError::InvalidArgument) && *final(self)
                == *old(self),
            res is Ok ==> forall|k: int|
                0 <= k < p@.len() ==> {
                    &&& #[trigger] final(self).instance(k) == old(self).instance(p@[k] as int)
                    &&& final(self).reordered_index(p@[k] as int) == k
                },
    {
        let n = self.data.len();
        if p.len() != n {
            return Err(ClamError::InvalidArgument);
        }
        let mut seen: Vec<bool> = Vec::with_capacity(n);
        let mut k: usize = 0;
        while k < n
            invariant
                k <= n,
                seen@.len() == k,
                forall|v: int| 0 <= v < k ==> !#[trigger] seen@[v],
            decreases n - k,
        {
            seen.push(false);
            k += 1;
        }
        let mut order: Vec<usize> = Vec::with_capacity(n);
        let mut moved: Vec<usize> = identity(n);
        k = 0;
        while k < n
            invariant
                self.wf(),
                *self == *old(self),
                n == self.len(),
                p@.len() == n,
                k <= n,
                seen@.len() == n,
                moved@.len() == n,
                order@.len() == k,
                all_below(p@.take(k as int), n as nat),
                p@.take(k as int).no_duplicates(),
                forall|v: int| 0 <= v < n ==> (#[trigger] seen@[v] <==> p@.take(k as int).contains(v as usize)),
                all_below(order@, n as nat),
                all_below(moved@, n as nat),
                forall|j: int| 0 <= j < k ==> #[trigger] order@[j] == self.order@[p@[j] as int],
                forall|j: int| 0 <= j < k ==> moved@[#[trigger] p@[j] as int] == j,
            decreases n - k,
        {
            let v = p[k];
            proof {
                assert(p@.take(k as int + 1) =~= p@.take(k as int).push(v));
            }
            if v >= n {
                proof {
                    assert(p@[k as int] >= n);
                }
                return Err(ClamError::InvalidArgument);
            }
            if seen[v] {
                proof {
                    let j = choose|j: int| 0 <= j < k && p@.take(k as int)[j] == v;
                    assert(p@[j] == p@[k as int] && j != k);
                }
                return Err(ClamError::InvalidArgument);
            }
            proof {
                let prev = p@.take(k as int);
                let next = prev.push(v);
                assert forall|a: int, b: int| 0 <= a < next.len() && 0 <= b < next.len() && a != b implies next[a] != next[b] by {
                    if a == k {
                        assert(prev[b] == next[b]);
                        assert(prev.contains(next[b]));
                    } else if b == k {
                        assert(prev[a] == next[a]);
                        assert(prev.contains(next[a]));
                    } else {
                        assert(prev[a] == next[a] && prev[b] == next[b]);
                    }
                }
                assert forall|w: int| 0 <= w < n implies ((w == v || seen@[w]) <==> next.contains(w as usize)) by {
                    if w == v {
                        assert(next[k as int] == v);
                    } else if seen@[w] {
                        let j = choose|j: int| 0 <= j < prev.len() && prev[j] == w as usize;
                        assert(next[j] == w as usize);
                    } else if next.contains(w as usize) {
                        let j = choose|j: int| 0 <= j < next.len() && next[j] == w as usize;
                        assert(j != k);
                        assert(prev[j] == w as usize);
                    }
                }
            }
            proof {
                let prev = p@.take(k as int);
                assert forall|j: int| 0 <= j < k implies p@[j] != v && p@[j] < n by {
                    assert(prev[j] == p@[j]);
                    assert(prev.contains(p@[j]));
                }
            }
            seen.set(v, true);
            order.push(self.order[v]);
            moved.set(v, k);
            k += 1;
        }
        proof {
            assert(p@.take(k as int) =~= p@);
        }
        self.order = order;
        self.moved = moved;
        Ok(())
    }

    /// Where the last permutation put the instance that was at position `i`
    /// before it; `i` itself while nothing was permuted.
    pub fn get_reordered_index(&self, i: usize) -> (res: usize)
        requires
            self.wf(),
            i < self.len(),
        ensures
            res == self.reordered_index(i as int),
            res < self.len(),
    {
        self.moved[i]
    }
}

/// The sequence `0, 1, .., n - 1`.
pub fn identity(n: usize) -> (v: Vec<usize>)
    ensures
        v@.len() == n,
        forall|k: int| 0 <= k < n ==> #[trigger] v@[k] == k,
{
    let mut v: Vec<usize> = Vec::with_capacity(n);
    let mut k: usize = 0;
    while k < n
        invariant
            k <= n,
            v@.len() == k,
            forall|j: int| 0 <= j < k ==> #[trigger] v@[j] == j,
        decreases n - k,
    {
        v.push(k);
        k += 1;
    }
    v
}

} // verus!

verus! {

/// The order in which rand's `SliceRandom::shuffle` leaves a sequence of
/// indices, when a ChaCha8 generator drives it that
/// `SeedableRng::seed_from_u64` made from `seed`.
pub uninterp spec fn seeded_shuffle(indices: Seq<usize>, seed: u64) -> Seq<usize>;

/// Shuffles `indices` with rand's `SliceRandom::shuffle`, driven by a ChaCha8
/// generator that `SeedableRng::seed_from_u64` makes from `seed`. A shuffle
/// rearranges: afterwards the vector holds what it held before, each index as
/// often as before. The generator is made anew from the seed, which a fixed
/// stream of numbers stretches to the key; the shuffle draws each exchange
/// from the generator alone, as a number of 32 bits wherever the length
/// allows, so that machines of 32 and of 64 bits give the same order: the
/// order that results is a function of the indices and the seed.
#[verifier::external_body]
fn shuffle_seeded(indices: &mut Vec<usize>, seed: u64)
    ensures
        final(indices)@ == seeded_shuffle(old(indices)@, seed),
        final(indices)@.to_multiset() == old(indices)@.to_multiset(),
{
    rand::seq::SliceRandom::shuffle(
        indices.as_mut_slice(),
        &mut <rand_chacha::ChaCha8Rng as rand::SeedableRng>::seed_from_u64(seed),
    );
}

/// Shuffles `indices` with rand's `SliceRandom::shuffle`, driven by the
/// generator of the calling thread (`rand::thread_rng`). A shuffle rearranges:
/// afterwards the vector holds what it held before, each index as often as
/// before.
#[verifier::external_body]
fn shuffle_unseeded(indices: &mut Vec<usize>)
    ensures
        final(indices)@.to_multiset() == old(indices)@.to_multiset(),
{
    rand::seq::SliceRandom::shuffle(indices.as_mut_slice(), &mut rand::thread_rng());
}

/// A copy of `indices`.
pub fn copy_indices(indices: &[usize]) -> (out: Vec<usize>)
    ensures
        out@ == indices@,
{
    let mut out: Vec<usize> = Vec::with_capacity(indices.len());
    let mut k: usize = 0;
    while k < indices.len()
        invariant
            k <= indices@.len(),
            out@ == indices@.take(k as int),
        decreases indices@.len() - k,
    {
        out.push(indices[k]);
        proof {
            assert(indices@.take(k as int + 1) =~= indices@.take(k as int).push(indices@[k as int]));
        }
        k += 1;
    }
    proof {
        assert(indices@.take(k as int) =~= indices@);
    }
    out
}

/// A rearrangement of `pool`: the one that the seed fixes, where a seed is
/// given.
pub fn shuffled(pool: &[usize], seed: Option<u64>) -> (out: Vec<usize>)
    ensures
        out@.to_multiset() == pool@.to_multiset(),
        seed is Some ==> out@ == seeded_shuffle(pool@, seed->Some_0),
{
    let mut out = copy_indices(pool);
    match seed {
        Some(s) => shuffle_seeded(&mut out, s),
        None => shuffle_unseeded(&mut out),
    }
    out
}

impl<T: Sync, M: Metric<T> + Sync> VecDataset<T, M> {
    /// The instance at position `i` is at distance zero from none of `chosen`.
    pub open spec fn is_fresh(&self, chosen: Seq<usize>, i: usize) -> bool {
        forall|k: int| 0 <= k < chosen.len() ==> #[trigger] self.dist(i as int, chosen[k] as int) != 0
    }

    /// What a greedy pass over the first `upto` candidates keeps: a candidate
    /// is kept while fewer than `n` are, and if it is at distance zero from
    /// none that was kept before it.
    pub open spec fn unique_prefix(&self, candidates: Seq<usize>, n: nat, upto: int) -> Seq<usize>
        decreases upto,
    {
        if upto <= 0 {
            Seq::empty()
        } else {
            let kept = self.unique_prefix(candidates, n, upto - 1);
            if kept.len() < n && self.is_fresh(kept, candidates[upto - 1]) {
                kept.push(candidates[upto - 1])
            } else {
                kept
            }
        }
    }

    /// What a greedy pass over all of `candidates` keeps.
    pub open spec fn unique_sample(&self, candidates: Seq<usize>, n: nat) -> Seq<usize> {
        self.unique_prefix(candidates, n, candidates.len() as int)
    }

    /// A greedy pass keeps at most `n` candidates, each of them one of the
    /// candidates, no two at distance zero (in the order kept), and at least
    /// one where there is one to keep.
    pub proof fn lemma_unique_prefix(&self, candidates: Seq<usize>, n: nat, upto: int)
        requires
            0 <= upto <= candidates.len(),
        ensures
            self.unique_prefix(candidates, n, upto).len() <= n,
            self.unique_prefix(candidates, n, upto).len() <= upto,
            n >= 1 && upto >= 1 ==> self.unique_prefix(candidates, n, upto).len() >= 1,
            forall|k: int|
                0 <= k < self.unique_prefix(candidates, n, upto).len() ==> candidates.take(
                    upto,
                ).contains(#[trigger] self.unique_prefix(candidates, n, upto)[k]),
            forall|a: int, b: int|
                0 <= a < b < self.unique_prefix(candidates, n, upto).len() ==> #[trigger] self.dist(
                    self.unique_prefix(candidates, n, upto)[b] as int,
                    self.unique_prefix(candidates, n, upto)[a] as int,
                ) != 0,
        decreases upto,
    {
        if upto > 0 {
            self.lemma_unique_prefix(candidates, n, upto - 1);
            let kept = self.unique_prefix(candidates, n, upto - 1);
            let now = self.unique_prefix(candidates, n, upto);
            assert forall|k: int| 0 <= k < now.len() implies candidates.take(upto).contains(
                #[trigger] now[k],
            ) by {
                if k < kept.len() {
                    let before = candidates.take(upto - 1);
                    assert(before.contains(kept[k]));
                    let j = choose|j: int| 0 <= j < before.len() && before[j] == kept[k];
                    assert(candidates.take(upto)[j] == now[k]);
                } else {
                    assert(candidates.take(upto)[upto - 1] == now[k]);
                }
            }
            if upto == 1 && n >= 1 {
                assert(kept.len() == 0);
                assert(self.is_fresh(kept, candidates[0]));
            }
        }
    }

    /// The greedy pass over `candidates`, in their order.
    pub fn choose_unique_from(&self, n: usize, candidates: &[usize]) -> (chosen: Vec<usize>)
        requires
            self.wf(),
            all_below(candidates@, self.len()),
        ensures
            chosen@ == self.unique_sample(candidates@, n as nat),
            all_below(chosen@, self.len()),
    {
        let mut chosen: Vec<usize> = Vec::new();
        let mut k: usize = 0;
        while k < candidates.len()
            invariant
                self.wf(),
                all_below(candidates@, self.len()),
                k <= candidates@.len(),
                chosen@ == self.unique_prefix(candidates@, n as nat, k as int),
                all_below(chosen@, self.len()),
            decreases candidates@.len() - k,
        {
            let i = candidates[k];
            if chosen.len() < n {
                let mut fresh = true;
                let mut c: usize = 0;
                while c < chosen.len() && fresh
                    invariant
                        self.wf(),
                        i < self.len(),
                        all_below(chosen@, self.len()),
                        c <= chosen@.len(),
                        fresh ==> self.is_fresh(chosen@.take(c as int), i),
                        !fresh ==> !self.is_fresh(chosen@, i),
                    decreases chosen@.len() - c + if fresh { 1int } else { 0int },
                {
                    if self.are_instances_equal(i, chosen[c]) {
                        fresh = false;
                    } else {
                        proof {
                            let before = chosen@.take(c as int);
                            let after = chosen@.take(c as int + 1);
                            assert forall|j: int| 0 <= j < after.len() implies #[trigger] self.dist(
                                i as int,
                                after[j] as int,
                            ) != 0 by {
                                if j < c {
                                    assert(before[j] == after[j]);
                                }
                            }
                        }
                        c += 1;
                    }
                }
                proof {
                    if fresh {
                        assert(chosen@.take(c as int) =~= chosen@);
                    }
                }
                if fresh {
                    chosen.push(i);
                }
            }
            k += 1;
        }
        chosen
    }

    /// Up to `n` of the indices of `pool`, no two of them at distance zero
    /// from each other: a greedy pass over a rearrangement of the pool, which
    /// the seed fixes where one is given.
    pub fn choose_unique(&self, n: usize, pool: &[usize], seed: Option<u64>) -> (chosen: Vec<usize>)
        requires
            self.wf(),
            all_below(pool@, self.len()),
        ensures
            seed is Some ==> chosen@ == self.unique_sample(
                seeded_shuffle(pool@, seed->Some_0),
                n as nat,
            ),
            exists|candidates: Seq<usize>|
                candidates.to_multiset() == pool@.to_multiset() && chosen@ == #[trigger] self.unique_sample(
                    candidates,
                    n as nat,
                ),
            chosen@.len() <= n,
            n >= 1 && pool@.len() >= 1 ==> chosen@.len() >= 1,
            all_below(chosen@, self.len()),
            forall|k: int| 0 <= k < chosen@.len() ==> pool@.contains(#[trigger] chosen@[k]),
    {
        let candidates = shuffled(pool, seed);
        proof {
            candidates@.to_multiset_ensures();
            pool@.to_multiset_ensures();
            assert(candidates@.len() == pool@.len());
            assert forall|k: int| 0 <= k < candidates@.len() implies #[trigger] candidates@[k]
                < self.len() by {
                assert(candidates@.contains(candidates@[k]));
                assert(pool@.to_multiset().count(candidates@[k]) > 0);
                assert(pool@.contains(candidates@[k]));
            }
        }
        let chosen = self.choose_unique_from(n, candidates.as_slice());
        proof {
            self.lemma_unique_prefix(candidates@, n as nat, candidates@.len() as int);
            assert(candidates@.take(candidates@.len() as int) =~= candidates@);
            assert forall|k: int| 0 <= k < chosen@.len() implies pool@.contains(
                #[trigger] chosen@[k],
            ) by {
                assert(candidates@.contains(chosen@[k]));
                assert(pool@.to_multiset().count(chosen@[k]) > 0);
            }
        }
        chosen
    }

    /// The sum of the distances from position `i` to the first `upto` of `others`.
    pub open spec fn dist_sum(&self, i: int, others: Seq<usize>, upto: int) -> nat
        decreases upto,
    {
        if upto <= 0 {
            0
        } else {
            self.dist_sum(i, others, upto - 1) + self.dist(i, others[upto - 1] as int) as nat
        }
    }

    /// The sum of the distances from position `i` to all of `others`.
    pub open spec fn total_dist(&self, i: int, others: Seq<usize>) -> nat {
        self.dist_sum(i, others, others.len() as int)
    }

    /// `a` is at least as central in `sample` as `b`: its distances to the
    /// sample sum to less, or to the same and `a` is the smaller index.
    pub open spec fn at_least_as_central(&self, a: usize, b: usize, sample: Seq<usize>) -> bool {
        self.total_dist(a as int, sample) < self.total_dist(b as int, sample) || (self.total_dist(
            a as int,
            sample,
        ) == self.total_dist(b as int, sample) && a <= b)
    }

    /// `c` is the median of `sample`: the member whose distances to the
    /// sample sum to the least, and among such members the smallest index.
    pub open spec fn is_median(&self, c: usize, sample: Seq<usize>) -> bool {
        &&& sample.contains(c)
        &&& forall|k: int|
            0 <= k < sample.len() ==> self.at_least_as_central(c, #[trigger] sample[k], sample)
    }

    /// The sum of the distances from position `i` to all of `others`.
    pub fn sum_of_distances(&self, i: usize, others: &[usize]) -> (sum: u128)
        requires
            self.wf(),
            i < self.len(),
            all_below(others@, self.len()),
        ensures
            sum == self.total_dist(i as int, others@),
    {
        let mut sum: u128 = 0;
        let mut k: usize = 0;
        while k < others.len()
            invariant
                self.wf(),
                i < self.len(),
                all_below(others@, self.len()),
                k <= others@.len(),
                sum == self.dist_sum(i as int, others@, k as int),
                sum <= k * 0xffff_ffff_ffff_ffff,
            decreases others@.len() - k,
        {
            let d = self.one_to_one(i, others[k]);
            assert((k + 1) * 0xffff_ffff_ffff_ffff <= 0xffff_ffff_ffff_ffff * 0xffff_ffff_ffff_ffff)
                by (nonlinear_arith)
                requires
                    k + 1 <= 0xffff_ffff_ffff_ffff,
            ;
            assert(sum + d <= (k + 1) * 0xffff_ffff_ffff_ffff) by (nonlinear_arith)
                requires
                    sum <= k * 0xffff_ffff_ffff_ffff,
                    d <= 0xffff_ffff_ffff_ffff,
            ;
            sum = sum + d as u128;
            k += 1;
        }
        sum
    }

    /// The median of `sample`.
    pub fn median(&self, sample: &[usize]) -> (c: usize)
        requires
            self.wf(),
            sample@.len() > 0,
            all_below(sample@, self.len()),
        ensures
            self.is_median(c, sample@),
            c < self.len(),
    {
        let mut best: usize = sample[0];
        let mut best_sum: u128 = self.sum_of_distances(best, sample);
        let mut k: usize = 1;
        proof {
            assert(sample@.take(1)[0] == best);
        }
        while k < sample.len()
            invariant
                self.wf(),
                all_below(sample@, self.len()),
                1 <= k <= sample@.len(),
                best < self.len(),
                best_sum == self.total_dist(best as int, sample@),
                sample@.take(k as int).contains(best),
                forall|j: int|
                    0 <= j < k ==> self.at_least_as_central(best, #[trigger] sample@[j], sample@),
            decreases sample@.len() - k,
        {
            let i = sample[k];
            let sum = self.sum_of_distances(i, sample);
            proof {
                let before = sample@.take(k as int);
                let j = choose|j: int| 0 <= j < before.len() && before[j] == best;
                assert(sample@.take(k as int + 1)[j] == best);
                assert(sample@.take(k as int + 1)[k as int] == i);
            }
            if sum < best_sum || (sum == best_sum && i < best) {
                best = i;
                best_sum = sum;
            }
            k += 1;
        }
        proof {
            assert(sample@.take(k as int) =~= sample@);
        }
        best
    }
}

} // verus!

verus! {

impl<X: Sync, M: Metric<Vec<X>> + Sync> VecDataset<Vec<X>, M> {
    /// The number of coordinates of the first instance in memory, and zero
    /// for a dataset without instances.
    pub fn dimensionality(&self) -> (d: usize)
        ensures
            d == if self.data@.len() == 0 {
                0
            } else {
                self.data@[0]@.len()
            },
    {
        if self.data.len() == 0 {
            0
        } else {
            self.data[0].len()
        }
    }
}

} // verus!
