//! The peaks-only snapshot of the accumulator.
use vstd::arithmetic::power2::{lemma_pow2_pos, pow2};
use vstd::prelude::*;

use crate::digest::{elements_of, RpoDigest};
use crate::field::Felt;
use crate::forest::{count_ones, high_bitmask, leaf_to_corresponding_tree};
use crate::hasher::{hash_elements_spec, Rpo256};
use crate::model::{
    clear_low, fold_path, merkle_path, owner_bit, owner_tree_leaves, peaks_of, pop_count,
};
use crate::path::MmrProof;

verus! {

/// The flattened field elements hashed by a peaks commitment: the peaks'
/// elements, padded with zero digests until the digest count is at least 16
/// and even.
pub open spec fn padded_peak_elements(s: Seq<RpoDigest>) -> Seq<Felt> {
    let target: nat = if s.len() < 16 {
        16
    } else if s.len() % 2 == 1 {
        s.len() + 1
    } else {
        s.len()
    };
    elements_of(s) + Seq::new((4 * (target - s.len())) as nat, |i: int| Felt { value: 0 })
}

/// Flattening yields four elements per digest.
pub proof fn lemma_elements_of_len(s: Seq<RpoDigest>)
    ensures
        elements_of(s).len() == 4 * s.len(),
    decreases s.len(),
{
    if s.len() > 0 {
        lemma_elements_of_len(s.drop_last());
    }
}

/// A peaks commitment hashes exactly `max(16, n rounded up to even)` digests
/// for `n` peaks: one peak is padded to 16, sixteen stay 16, seventeen are
/// padded to 18.
pub proof fn lemma_hash_peaks_width(s: Seq<RpoDigest>)
    ensures
        s.len() < 16 ==> padded_peak_elements(s).len() == 4 * 16,
        s.len() >= 16 && s.len() % 2 == 0 ==> padded_peak_elements(s).len() == 4 * s.len(),
        s.len() >= 16 && s.len() % 2 == 1 ==> padded_peak_elements(s).len() == 4 * (s.len() + 1),
{
    lemma_elements_of_len(s);
}

/// A proof is accepted by a peaks snapshot: it speaks of the same forest, its
/// position exists, and folding the path from the claimed value reproduces
/// the peak of the owning tree.
pub open spec fn proof_accepted(peaks: MmrPeaks, value: RpoDigest, opening: MmrProof) -> bool {
    &&& opening.forest == peaks.num_leaves
    &&& opening.position < opening.forest
    &&& ({
        let f = opening.forest as nat;
        let b = owner_bit(f, opening.position as nat);
        let rel = opening.position - clear_low(f, b + 1);
        let idx = pop_count(f / pow2(b + 1));
        fold_path(value, opening.merkle_path.nodes@, rel as nat) == peaks.peaks@[idx as int]
    })
}

/// An immutable snapshot of the accumulator: the number of leaves and the
/// root of every tree of the forest, largest tree first.
///
/// The snapshot is enough to check membership proofs without the node
/// buffer; it is never mutated once produced.
#[derive(Debug, Clone)]
pub struct MmrPeaks {
    /// The forest value the snapshot was taken at: the number of leaves.
    pub num_leaves: usize,
    /// The root digest of each tree, highest tree first.
    pub peaks: Vec<RpoDigest>,
}

impl MmrPeaks {
    /// One peak per set bit of the leaf count.
    pub open spec fn wf(self) -> bool {
        pop_count(self.num_leaves as nat) == self.peaks@.len()
    }

    /// Hashes the peaks into one commitment digest.
    ///
    /// The peaks are padded with zero digests until their number is at least
    /// 16 and even, then flattened into field elements, four per digest, and
    /// hashed; the fixed minimum width keeps the commitment's shape canonical
    /// whatever the tree count.
    pub fn hash_peaks(&self) -> (r: RpoDigest)
        requires
            self.wf(),
        ensures
            r == hash_elements_spec(padded_peak_elements(self.peaks@)),
    {
        let n = self.peaks.len();
        proof {
            crate::forest::lemma_usize_max_pow2();
            crate::forest::lemma_bit_len_le(self.num_leaves as nat, usize::BITS as nat);
            crate::model::lemma_pop_count_le_bit_len(self.num_leaves as nat);
            assert(n <= usize::BITS);
        }
        let target: usize = if n < 16 {
            16
        } else if n % 2 == 1 {
            n + 1
        } else {
            n
        };
        let mut padded: Vec<RpoDigest> = Vec::new();
        let mut i: usize = 0;
        while i < n
            invariant
                0 <= i <= n,
                n == self.peaks@.len(),
                padded@ == self.peaks@.take(i as int),
            decreases n - i,
        {
            padded.push(self.peaks[i]);
            proof {
                assert(padded@ =~= self.peaks@.take(i + 1));
            }
            i = i + 1;
        }
        proof {
            assert(self.peaks@.take(n as int) =~= self.peaks@);
        }
        while padded.len() < target
            invariant
                n <= padded@.len() <= target,
                n == self.peaks@.len(),
                target <= usize::MAX,
                elements_of(padded@) =~= elements_of(self.peaks@) + Seq::new(
                    (4 * (padded@.len() - n)) as nat,
                    |i: int| Felt { value: 0 },
                ),
            decreases target - padded@.len(),
        {
            let ghost before = padded@;
            let zero = RpoDigest::new(
                [Felt::zero(), Felt::zero(), Felt::zero(), Felt::zero()],
            );
            padded.push(zero);
            proof {
                crate::digest::lemma_elements_of_push(before, zero);
                assert(zero.0@ =~= Seq::new(4, |i: int| Felt { value: 0 }));
                assert(elements_of(padded@) =~= elements_of(self.peaks@) + Seq::new(
                    (4 * (padded@.len() - n)) as nat,
                    |i: int| Felt { value: 0 },
                ));
            }
        }
        let elements = RpoDigest::digests_as_elements(padded.as_slice());
        proof {
            assert(elements@ =~= padded_peak_elements(self.peaks@));
        }
        Rpo256::hash_elements(elements.as_slice())
    }

    /// Checks a membership proof against this snapshot: recomputes the root
    /// from the claimed value and the sibling path, and compares it with the
    /// stored peak of the tree owning the proven position.
    ///
    /// Returns false when the proof speaks of another forest or of a position
    /// at or beyond the leaf count.
    pub fn verify(&self, value: RpoDigest, opening: MmrProof) -> (r: bool)
        requires
            self.wf(),
        ensures
            r == proof_accepted(*self, value, opening),
    {
        if opening.forest != self.num_leaves {
            return false;
        }
        let tree_bit = match leaf_to_corresponding_tree(opening.position, opening.forest) {
            None => {
                return false;
            },
            Some(b) => b,
        };
        let ghost f = opening.forest as nat;
        let ghost b = tree_bit as nat;
        proof {
            assert(owner_bit(f, opening.position as nat) == b) by {
                crate::model::lemma_owner_exists(f, opening.position as nat);
                crate::forest::lemma_owner_unique(
                    f,
                    opening.position as nat,
                    owner_bit(f, opening.position as nat),
                    b,
                );
            }
            crate::model::lemma_peak_index_bound(f, b);
            crate::model::lemma_pop_count_shift(f / pow2(b + 1), b + 1);
            crate::forest::lemma_clear_low_le(f, b + 1);
        }
        let forest_before = opening.forest & high_bitmask(tree_bit + 1);
        let peak_index = count_ones(forest_before) as usize;
        proof {
            assert(clear_low(f, b + 1) == (f / pow2(b + 1)) * pow2(b + 1));
            assert(pop_count(clear_low(f, b + 1)) == pop_count(f / pow2(b + 1)));
            assert(peak_index < self.peaks@.len());
        }
        let relative_pos = opening.position - forest_before;
        let mut acc = value;
        let mut rp = relative_pos;
        let mut i: usize = 0;
        let path_len = opening.merkle_path.nodes.len();
        proof {
            assert(opening.merkle_path.nodes@.skip(0) =~= opening.merkle_path.nodes@);
        }
        while i < path_len
            invariant
                0 <= i <= path_len,
                path_len == opening.merkle_path.nodes@.len(),
                fold_path(value, opening.merkle_path.nodes@, relative_pos as nat) == fold_path(
                    acc,
                    opening.merkle_path.nodes@.skip(i as int),
                    rp as nat,
                ),
            decreases path_len - i,
        {
            let ghost rest = opening.merkle_path.nodes@.skip(i as int);
            let sib = opening.merkle_path.nodes[i];
            proof {
                assert(rest.len() > 0);
                assert(rest.first() == opening.merkle_path.nodes@[i as int]);
                assert(rest.drop_first() =~= opening.merkle_path.nodes@.skip(i + 1));
            }
            if rp % 2 == 1 {
                acc = Rpo256::merge(&[sib, acc]);
            } else {
                acc = Rpo256::merge(&[acc, sib]);
            }
            rp = rp / 2;
            i = i + 1;
        }
        proof {
            assert(opening.merkle_path.nodes@.skip(path_len as int)
                =~= Seq::<RpoDigest>::empty());
        }
        let expected = self.peaks[peak_index];
        acc == expected
    }
}

/// Opening a position and verifying the returned proof against the peaks of
/// the same forest always succeeds: folding the leaf's own sibling path
/// recomputes exactly the stored peak of its tree.
///
/// Stated over the model: for any leaf sequence and any position below its
/// length, the path that `open` promises, folded from the leaf value that
/// `get` promises, meets the acceptance condition that `verify` checks
/// against the peaks that `accumulator` promises.
pub proof fn lemma_open_verifies(l: Seq<RpoDigest>, pos: nat)
    requires
        pos < l.len(),
    ensures
        ({
            let f = l.len();
            let b = owner_bit(f, pos);
            let tl = owner_tree_leaves(l, b);
            let rel = (pos - clear_low(f, b + 1)) as nat;
            let idx = pop_count(f / pow2(b + 1));
            &&& idx < peaks_of(l).len()
            &&& fold_path(l[pos as int], merkle_path(tl, rel), rel) == peaks_of(l)[idx as int]
        }),
{
    let f = l.len();
    crate::model::lemma_owner_exists(f, pos);
    let b = owner_bit(f, pos);
    let lo = clear_low(f, b + 1);
    let rel = (pos - lo) as nat;
    let tl = owner_tree_leaves(l, b);
    crate::model::lemma_tree_segment(l, b);
    lemma_pow2_pos(b);
    assert(tl.len() == pow2(b));
    crate::model::lemma_fold_merkle_path(tl, b, rel);
    assert(tl[rel as int] == l[pos as int]);
    crate::model::lemma_peak_at(l, b);
    crate::model::lemma_peaks_len(l);
    crate::model::lemma_peak_index_bound(f, b);
    assert(peaks_of(l)[pop_count(f / pow2(b + 1)) as int] == crate::model::tree_root(
        l.subrange(lo as int, lo + pow2(b) as int),
    ));
}

} // verus!
