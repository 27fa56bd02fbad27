//! Nodes compared by rank: two nodes are equal where their ranks are, and
//! one is less than another where its rank is lower.

use vstd::prelude::*;
use std::cmp::Ordering;
use crate::node::Node;

verus! {

impl PartialEq for Node {
    /// Whether the two nodes have the same rank.
    fn eq(&self, other: &Node) -> (same: bool) {
        self.rank == other.rank
    }
}

impl vstd::std_specs::cmp::PartialEqSpecImpl for Node {
    open spec fn obeys_eq_spec() -> bool {
        true
    }

    open spec fn eq_spec(&self, other: &Node) -> bool {
        self.rank == other.rank
    }
}

impl Eq for Node {

}

impl PartialOrd for Node {
    /// How the rank of this node stands to that of the other.
    fn partial_cmp(&self, other: &Node) -> (order: Option<Ordering>) {
        if self.rank < other.rank {
            Some(Ordering::Less)
        } else if self.rank > other.rank {
            Some(Ordering::Greater)
        } else {
            Some(Ordering::Equal)
        }
    }
}

impl vstd::std_specs::cmp::PartialOrdSpecImpl for Node {
    open spec fn obeys_partial_cmp_spec() -> bool {
        true
    }

    open spec fn partial_cmp_spec(&self, other: &Node) -> Option<Ordering> {
        if self.rank < other.rank {
            Some(Ordering::Less)
        } else if self.rank > other.rank {
            Some(Ordering::Greater)
        } else {
            Some(Ordering::Equal)
        }
    }
}

} // verus!
