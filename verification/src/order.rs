//! Clusters compared by their names: equal where the names are, and
//! ordered as a breadth-first walk of the tree meets them.

use vstd::prelude::*;
use vstd::std_specs::cmp::{PartialEqSpecImpl, PartialOrdSpecImpl};
use core::cmp::Ordering;
use crate::cluster::Cluster;

verus! {

/// The name `a` comes before the name `b`: it is shorter, or as long and
/// has a zero where they first differ.
pub open spec fn name_before(a: Seq<bool>, b: Seq<bool>) -> bool {
    a.len() < b.len() || (a.len() == b.len() && exists|i: int|
        0 <= i < a.len() && #[trigger] a.take(i) == b.take(i) && !a[i] && b[i])
}

/// How the name `a` stands to the name `b`.
pub open spec fn name_order(a: Seq<bool>, b: Seq<bool>) -> Ordering {
    if name_before(a, b) {
        Ordering::Less
    } else if name_before(b, a) {
        Ordering::Greater
    } else {
        Ordering::Equal
    }
}

impl Cluster {
    /// Whether the two clusters have the same name.
    pub fn same_name(&self, other: &Cluster) -> (res: bool)
        ensures
            res == (self.bits() == other.bits()),
    {
        let n = self.history.len();
        if n != other.history.len() {
            return false;
        }
        let mut i: usize = 0;
        while i < n
            invariant
                n == self.bits().len(),
                n == other.bits().len(),
                i <= n,
                self.bits().take(i as int) == other.bits().take(i as int),
            decreases n - i,
        {
            if self.history.bit(i) != other.history.bit(i) {
                return false;
            }
            proof {
                assert(self.bits().take(i as int + 1) =~= self.bits().take(i as int).push(
                    self.bits()[i as int],
                ));
                assert(other.bits().take(i as int + 1) =~= other.bits().take(i as int).push(
                    other.bits()[i as int],
                ));
            }
            i += 1;
        }
        proof {
            assert(self.bits().take(n as int) =~= self.bits());
            assert(other.bits().take(n as int) =~= other.bits());
        }
        true
    }

    /// Whether a breadth-first walk of the tree meets this cluster before
    /// it meets `other`: whether it is less deep, or as deep and to the left.
    pub fn precedes(&self, other: &Cluster) -> (res: bool)
        ensures
            res == name_before(self.bits(), other.bits()),
    {
        let n = self.history.len();
        let m = other.history.len();
        if n != m {
            return n < m;
        }
        let mut i: usize = 0;
        while i < n
            invariant
                n == self.bits().len(),
                n == other.bits().len(),
                i <= n,
                self.bits().take(i as int) == other.bits().take(i as int),
            decreases n - i,
        {
            let mine = self.history.bit(i);
            let theirs = other.history.bit(i);
            if mine != theirs {
                proof {
                    let a = self.bits();
                    let b = other.bits();
                    assert forall|j: int| 0 <= j < n && a.take(j) == b.take(j) && a[j]
                        != b[j] implies j == i by {
                        if j < i {
                            assert(a.take(i as int)[j] == b.take(i as int)[j]);
                        } else if j > i {
                            assert(a.take(j)[i as int] == b.take(j)[i as int]);
                        }
                    }
                }
                return !mine;
            }
            proof {
                assert(self.bits().take(i as int + 1) =~= self.bits().take(i as int).push(
                    self.bits()[i as int],
                ));
                assert(other.bits().take(i as int + 1) =~= other.bits().take(i as int).push(
                    other.bits()[i as int],
                ));
            }
            i += 1;
        }
        proof {
            assert(self.bits().take(n as int) =~= self.bits());
            assert(other.bits().take(n as int) =~= other.bits());
        }
        false
    }
}

impl PartialEq for Cluster {
    /// Clusters are equal where their names are.
    fn eq(&self, other: &Self) -> (res: bool) {
        self.same_name(other)
    }
}

impl PartialEqSpecImpl for Cluster {
    open spec fn obeys_eq_spec() -> bool {
        true
    }

    open spec fn eq_spec(&self, other: &Self) -> bool {
        self.bits() == other.bits()
    }
}

impl PartialOrd for Cluster {
    /// Clusters are ordered by depth, and by name where they are as deep.
    fn partial_cmp(&self, other: &Self) -> (res: Option<Ordering>) {
        if self.precedes(other) {
            Some(Ordering::Less)
        } else if other.precedes(self) {
            Some(Ordering::Greater)
        } else {
            Some(Ordering::Equal)
        }
    }
}

impl PartialOrdSpecImpl for Cluster {
    open spec fn obeys_partial_cmp_spec() -> bool {
        true
    }

    open spec fn partial_cmp_spec(&self, other: &Self) -> Option<Ordering> {
        Some(name_order(self.bits(), other.bits()))
    }
}

} // verus!
