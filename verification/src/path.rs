//! Membership paths and proofs.
use vstd::prelude::*;

use crate::digest::RpoDigest;

verus! {

/// An ordered list of sibling digests from a leaf up to its tree's root,
/// enough to recompute the root from the leaf value by repeated merging.
#[derive(Debug, Clone)]
pub struct MerklePath {
    /// The siblings, leaf to root.
    pub nodes: Vec<RpoDigest>,
}

impl MerklePath {
    /// Wraps an ordered list of sibling digests.
    pub fn new(paths: Vec<RpoDigest>) -> (r: MerklePath)
        ensures
            r.nodes@ == paths@,
    {
        MerklePath { nodes: paths }
    }

    /// Number of siblings on the path: the depth of the tree it belongs to.
    pub fn len(&self) -> (r: usize)
        ensures
            r == self.nodes@.len(),
    {
        self.nodes.len()
    }
}

impl PartialEq for MerklePath {
    fn eq(&self, other: &MerklePath) -> (r: bool) {
        if self.nodes.len() != other.nodes.len() {
            return false;
        }
        let mut i: usize = 0;
        while i < self.nodes.len()
            invariant
                0 <= i <= self.nodes@.len(),
                self.nodes@.len() == other.nodes@.len(),
                forall|k: int| 0 <= k < i ==> self.nodes@[k] == other.nodes@[k],
            decreases self.nodes@.len() - i,
        {
            if self.nodes[i] != other.nodes[i] {
                return false;
            }
            i = i + 1;
        }
        proof {
            assert(self.nodes@ =~= other.nodes@);
        }
        true
    }
}

impl Eq for MerklePath {

}

impl vstd::std_specs::cmp::PartialEqSpecImpl for MerklePath {
    open spec fn obeys_eq_spec() -> bool {
        true
    }

    open spec fn eq_spec(&self, other: &MerklePath) -> bool {
        self.nodes@ == other.nodes@
    }
}

/// A membership proof: the forest value at proof time, the position of the
/// proven leaf, and its sibling path up to the owning tree's root.
///
/// The value is self-contained: verification needs only a peaks snapshot of
/// the same forest, not the accumulator that produced it.
#[derive(Debug, Clone)]
pub struct MmrProof {
    /// The forest value when the proof was produced.
    pub forest: usize,
    /// The 0-indexed position of the proven element, in append order.
    pub position: usize,
    /// The sibling digests from the leaf to the owning tree's root.
    pub merkle_path: MerklePath,
}

} // verus!
