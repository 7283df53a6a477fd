//! The rules that decide whether a cluster may be split.

use vstd::prelude::*;
use crate::cluster::Cluster;

verus! {

/// Up to three tests on a cluster, and how their verdicts combine.
///
/// * a depth limit `k` allows a split while `depth < k`;
/// * a cardinality limit `m` allows a split while `cardinality > m`;
/// * a radius limit `r` allows a split while `radius > r`.
///
/// Strict criteria allow a split where every test that is set allows it, and
/// start with the cardinality limit 2. Lenient criteria allow a split where
/// some test that is set allows it, and start with the cardinality limit 1.
#[derive(Clone, Copy, Debug, PartialEq, Eq, Structural)]
pub struct PartitionCriteria {
    /// The depth limit, if set.
    pub max_depth: Option<usize>,
    /// The cardinality limit, if set.
    pub min_cardinality: Option<usize>,
    /// The radius limit, if set.
    pub min_radius: Option<u64>,
    /// Whether every test must allow the split, or only one.
    pub check_all: bool,
}

impl PartitionCriteria {
    /// The depth test allows the split, or is not set.
    pub open spec fn depth_allows(&self, depth: nat) -> bool {
        self.max_depth is Some ==> depth < self.max_depth->Some_0
    }

    /// The cardinality test allows the split, or is not set.
    pub open spec fn cardinality_allows(&self, cardinality: nat) -> bool {
        self.min_cardinality is Some ==> cardinality > self.min_cardinality->Some_0
    }

    /// The radius test allows the split, or is not set.
    pub open spec fn radius_allows(&self, radius: u64) -> bool {
        self.min_radius is Some ==> radius > self.min_radius->Some_0
    }

    /// The verdict on a cluster of the given depth, cardinality and radius.
    pub open spec fn verdict(&self, depth: nat, cardinality: nat, radius: u64) -> bool {
        if self.check_all {
            &&& self.depth_allows(depth)
            &&& self.cardinality_allows(cardinality)
            &&& self.radius_allows(radius)
        } else {
            ||| self.max_depth is Some && self.depth_allows(depth)
            ||| self.min_cardinality is Some && self.cardinality_allows(cardinality)
            ||| self.min_radius is Some && self.radius_allows(radius)
        }
    }

    /// Criteria with the cardinality test alone: limit 2 and every test
    /// binding if `strict`, limit 1 and any test sufficient if not.
    pub fn new(strict: bool) -> (res: Self)
        ensures
            res == (PartitionCriteria {
                max_depth: None,
                min_cardinality: Some(if strict { 2usize } else { 1usize }),
                min_radius: None,
                check_all: strict,
            }),
    {
        PartitionCriteria {
            max_depth: None,
            min_cardinality: Some(if strict { 2 } else { 1 }),
            min_radius: None,
            check_all: strict,
        }
    }

    /// The same criteria with the depth limit `k`.
    pub fn with_max_depth(self, k: usize) -> (res: Self)
        ensures
            res == (PartitionCriteria { max_depth: Some(k), ..self }),
    {
        PartitionCriteria { max_depth: Some(k), ..self }
    }

    /// The same criteria with the cardinality limit `m` in place of the one
    /// they had.
    pub fn with_min_cardinality(self, m: usize) -> (res: Self)
        ensures
            res == (PartitionCriteria { min_cardinality: Some(m), ..self }),
    {
        PartitionCriteria { min_cardinality: Some(m), ..self }
    }

    /// The same criteria with the radius limit `r`.
    pub fn with_min_radius(self, r: u64) -> (res: Self)
        ensures
            res == (PartitionCriteria { min_radius: Some(r), ..self }),
    {
        PartitionCriteria { min_radius: Some(r), ..self }
    }

    /// The same criteria, and with them a test of the caller's own, which
    /// counts as one more test: with strict criteria it must allow the split
    /// too, with lenient ones it is enough if it does.
    pub fn with_custom<C: PartitionCriterion>(self, custom: C) -> (res: WithCustom<C>)
        ensures
            res.criteria == self,
            res.custom == custom,
    {
        WithCustom { criteria: self, custom }
    }
}

/// A test that decides whether a cluster may be split.
pub trait PartitionCriterion {
    /// Whether the cluster may be split.
    spec fn allows(&self, cluster: &Cluster) -> bool;

    /// Decides whether the cluster may be split.
    fn check(&self, cluster: &Cluster) -> (ok: bool)
        requires
            cluster.history.wf(),
        ensures
            ok == self.allows(cluster),
    ;
}

impl PartitionCriterion for PartitionCriteria {
    open spec fn allows(&self, cluster: &Cluster) -> bool {
        self.verdict(
            (cluster.bits().len() - 1) as nat,
            cluster.cardinality as nat,
            cluster.radius,
        )
    }

    /// Whether the criteria allow the cluster to be split.
    fn check(&self, cluster: &Cluster) -> (ok: bool) {
        let depth = cluster.history.len() - 1;
        let by_depth = match self.max_depth {
            Some(k) => depth < k,
            None => self.check_all,
        };
        let by_cardinality = match self.min_cardinality {
            Some(m) => cluster.cardinality > m,
            None => self.check_all,
        };
        let by_radius = match self.min_radius {
            Some(r) => cluster.radius > r,
            None => self.check_all,
        };
        if self.check_all {
            by_depth && by_cardinality && by_radius
        } else {
            by_depth || by_cardinality || by_radius
        }
    }
}

/// Criteria with a test of the caller's own.
pub struct WithCustom<C: PartitionCriterion> {
    /// The tests on depth, cardinality and radius, and how verdicts combine.
    pub criteria: PartitionCriteria,
    /// The test of the caller's own.
    pub custom: C,
}

impl<C: PartitionCriterion> WithCustom<C> {
    /// The same criteria with the depth limit `k`.
    pub fn with_max_depth(self, k: usize) -> (res: Self)
        ensures
            res.criteria == (PartitionCriteria { max_depth: Some(k), ..self.criteria }),
            res.custom == self.custom,
    {
        WithCustom { criteria: self.criteria.with_max_depth(k), custom: self.custom }
    }

    /// The same criteria with the cardinality limit `m` in place of the one
    /// they had.
    pub fn with_min_cardinality(self, m: usize) -> (res: Self)
        ensures
            res.criteria == (PartitionCriteria { min_cardinality: Some(m), ..self.criteria }),
            res.custom == self.custom,
    {
        WithCustom { criteria: self.criteria.with_min_cardinality(m), custom: self.custom }
    }

    /// The same criteria with the radius limit `r`.
    pub fn with_min_radius(self, r: u64) -> (res: Self)
        ensures
            res.criteria == (PartitionCriteria { min_radius: Some(r), ..self.criteria }),
            res.custom == self.custom,
    {
        WithCustom { criteria: self.criteria.with_min_radius(r), custom: self.custom }
    }
}

impl<C: PartitionCriterion> PartitionCriterion for WithCustom<C> {
    open spec fn allows(&self, cluster: &Cluster) -> bool {
        if self.criteria.check_all {
            self.criteria.allows(cluster) && self.custom.allows(cluster)
        } else {
            self.criteria.allows(cluster) || self.custom.allows(cluster)
        }
    }

    fn check(&self, cluster: &Cluster) -> (ok: bool) {
        if self.criteria.check_all {
            self.criteria.check(cluster) && self.custom.check(cluster)
        } else {
            self.criteria.check(cluster) || self.custom.check(cluster)
        }
    }
}

impl Default for PartitionCriteria {
    /// Strict criteria with the cardinality limit 2.
    fn default() -> (res: Self)
        ensures
            res == (PartitionCriteria {
                max_depth: None,
                min_cardinality: Some(2usize),
                min_radius: None,
                check_all: true,
            }),
    {
        PartitionCriteria::new(true)
    }
}

/// The criterion judges a cluster by what the cluster holds: two clusters
/// that are the same tree get the same verdict.
pub open spec fn judges_alike<C: PartitionCriterion>(criteria: &C) -> bool {
    forall|x: Cluster, y: Cluster|
        x.is_same_tree(&y) ==> #[trigger] criteria.allows(&x) == #[trigger] criteria.allows(&y)
}

impl PartitionCriteria {
    /// Tests on depth, cardinality and radius judge a cluster by what it
    /// holds.
    pub proof fn lemma_judges_alike(&self)
        ensures
            judges_alike(self),
    {
    }
}

impl<C: PartitionCriterion> WithCustom<C> {
    /// Criteria with a test of the caller's own judge a cluster by what it
    /// holds, if that test does.
    pub proof fn lemma_judges_alike(&self)
        requires
            judges_alike(&self.custom),
        ensures
            judges_alike(self),
    {
        self.criteria.lemma_judges_alike();
        assert forall|x: Cluster, y: Cluster| x.is_same_tree(&y) implies #[trigger] self.allows(&x)
            == #[trigger] self.allows(&y) by {
            assert(self.criteria.allows(&x) == self.criteria.allows(&y));
            assert(self.custom.allows(&x) == self.custom.allows(&y));
        }
    }
}

} // verus!
