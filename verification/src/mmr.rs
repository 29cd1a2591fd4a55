//! The Merkle Mountain Range: an append-only accumulator over digests.
//!
//! The structure owns the forest descriptor and one linear buffer holding
//! every node of every tree in postorder.  The buffer is fully determined by
//! the sequence of appended leaves, which the type carries as a ghost view;
//! every operation is specified against that sequence.
use vstd::arithmetic::power2::{lemma_pow2_pos, pow2};
use vstd::prelude::*;

use crate::digest::RpoDigest;
use crate::forest::{high_bitmask, leaf_to_corresponding_tree, nodes_in_forest};
use crate::hasher::Rpo256;
use crate::model::{
    bit_set, clear_low, climb_root, climb_seq, count_nodes, forest_nodes, lemma_bit_set_trailing,
    lemma_climb_step, lemma_count_nodes_step, lemma_forest_nodes_len, lemma_forest_push,
    lemma_pow2_le, lemma_tree_nodes_last, lemma_tree_nodes_len, lemma_tree_segment, pop_count,
    tree_nodes, tree_root, trailing_ones,
};
use crate::path::{MerklePath, MmrProof};
use vstd::arithmetic::div_mod::{lemma_fundamental_div_mod, lemma_mod_bound};

verus! {

/// The error an out-of-range request reports: the offending position.
#[derive(Debug, PartialEq, Eq, Structural, Copy, Clone)]
pub enum MmrError {
    InvalidPosition(usize),
}

impl MmrError {
    /// A short description of the error.
    pub fn message(&self) -> (r: String)
        ensures
            r@ == "Mmr does not contain the requested position"@,
    {
        let s: &str = "Mmr does not contain the requested position";
        s.to_string()
    }
}

/// A fully materialized Merkle Mountain Range, with every tree in the forest
/// and all their elements.
///
/// Elements are never removed; the node buffer grows by at most two entries
/// per appended leaf.
#[derive(Clone)]
pub struct Mmr {
    /// The forest descriptor: the number of leaves appended so far.  Each set
    /// bit marks one perfect tree, the bit position giving its depth.
    pub forest: usize,
    /// Every node of the forest: the trees' postorder node sequences, in the
    /// order the trees were created, largest first.
    pub nodes: Vec<RpoDigest>,
    /// The leaves appended so far, in order.
    pub leaves: Ghost<Seq<RpoDigest>>,
}

impl Mmr {
    /// The buffer is exactly the node sequence determined by the leaves, and
    /// the forest value counts them.
    pub open spec fn wf(self) -> bool {
        &&& self.leaves@.len() == self.forest as nat
        &&& self.nodes@ == forest_nodes(self.leaves@)
        &&& self.forest <= usize::MAX / 2
    }

    /// Constructor for an empty accumulator.
    pub fn new() -> (r: Mmr)
        ensures
            r.wf(),
            r.forest == 0,
            r.leaves@ == Seq::<RpoDigest>::empty(),
            r.nodes@ == Seq::<RpoDigest>::empty(),
    {
        Mmr { forest: 0, nodes: Vec::new(), leaves: Ghost(Seq::empty()) }
    }

    /// Returns the forest descriptor: the number of elements appended so far;
    /// its set-bit count is the number of trees, each set bit the depth of
    /// one tree.
    pub fn forest(&self) -> (r: usize)
        ensures
            r == self.forest,
    {
        self.forest
    }

    /// Appends a new element.
    ///
    /// The element enters as a tree of one leaf; while a tree of the same
    /// depth exists, the two merge into one of the next depth, each merged
    /// root appended to the buffer, until every depth is unique again.
    pub fn add(&mut self, el: RpoDigest)
        requires
            old(self).wf(),
            old(self).forest < usize::MAX / 2,
        ensures
            final(self).wf(),
            final(self).leaves@ == old(self).leaves@.push(el),
            final(self).forest == old(self).forest + 1,
    {
        let ghost l = self.leaves@;
        let ghost f = self.forest as nat;
        let ghost t = trailing_ones(f);
        proof {
            lemma_forest_nodes_len(l);
            crate::model::lemma_count_nodes_bounds(f);
            crate::model::lemma_trailing_ones_le_bit_len(f);
            crate::forest::lemma_usize_max_pow2();
            crate::forest::lemma_bit_len_le(f, usize::BITS as nat);
            crate::model::lemma_trailing_ones_mod(f);
        }
        self.nodes.push(el);

        let mut left_offset = self.nodes.len().saturating_sub(2);
        let mut right = el;
        let mut left_tree: usize = 1;
        let ghost mut i: nat = 0;
        proof {
            assert(pow2(0) == 1 && pow2(1) == 2) by {
                vstd::arithmetic::power2::lemma2_to64();
            }
            assert(climb_root(l, el, 0) == el) by {
                assert(l.skip(f as int) =~= Seq::<RpoDigest>::empty());
                assert(l.skip(f as int).push(el) =~= seq![el]);
            }
            assert(self.nodes@ =~= forest_nodes(l) + climb_seq(l, el, 0));
            assert(clear_low(f, 0) == f) by {
                lemma_fundamental_div_mod(f as int, 1);
                lemma_mod_bound(f as int, 1);
            }
        }
        while self.forest & left_tree != 0
            invariant
                self.forest as nat == f,
                self.leaves@ == l,
                f == l.len(),
                f < usize::MAX / 2,
                t == trailing_ones(f),
                pow2(t) - 1 <= f,
                i <= t,
                t <= usize::BITS,
                usize::MAX as nat + 1 == pow2(usize::BITS as nat),
                left_tree as nat == pow2(i),
                right == climb_root(l, el, i),
                self.nodes@ == forest_nodes(l) + climb_seq(l, el, i),
                forest_nodes(l).len() == count_nodes(f),
                i < t ==> left_offset == count_nodes(clear_low(f, i)) - 1,
            decreases t - i,
        {
            proof {
                assert(i < 64) by {
                    crate::forest::lemma_usize_max_pow2();
                    if i >= usize::BITS as nat {
                        lemma_pow2_le(usize::BITS as nat, i);
                        assert(false);
                    }
                    vstd::arithmetic::power2::lemma2_to64();
                    vstd::arithmetic::power2::lemma2_to64_rest();
                }
                crate::forest::lemma_bit_test_usize(self.forest, left_tree, i);
                assert(bit_set(f, i));
                assert(i < t) by {
                    lemma_bit_set_trailing(f, i);
                }
                lemma_climb_step(l, el, i);
                lemma_count_nodes_step(f, i);
                lemma_tree_segment(l, i);
                let lo = clear_low(f, i + 1);
                let sub = l.subrange(lo as int, lo + pow2(i) as int);
                lemma_tree_nodes_len(sub);
                lemma_tree_nodes_last(sub);
                assert(left_offset < forest_nodes(l).len());
                // the entry at left_offset is the last node of tree i: its root
                let no = count_nodes(lo);
                assert(forest_nodes(l).subrange(no, no + 2 * pow2(i) - 1) == tree_nodes(sub));
                assert(forest_nodes(l)[no + 2 * pow2(i) - 2] == tree_nodes(sub).last()) by {
                    assert(tree_nodes(sub)[2 * pow2(i) - 2] == tree_nodes(sub).last());
                }
                assert(left_offset == no + 2 * pow2(i) - 2);
                assert(self.nodes@[left_offset as int] == tree_root(sub));
            }
            right = Rpo256::merge(&[self.nodes[left_offset], right]);
            self.nodes.push(right);
            proof {
                assert(self.nodes@ =~= forest_nodes(l) + climb_seq(l, el, i + 1)) by {
                    assert(climb_seq(l, el, i + 1) =~= climb_seq(l, el, i).push(
                        climb_root(l, el, i + 1),
                    ));
                }
            }

            let step = nodes_in_forest(left_tree);
            left_offset = left_offset.saturating_sub(step);
            proof {
                crate::model::lemma_pop_count_pow2(i);
                assert(step == 2 * pow2(i) - 1);
                lemma_pow2_le(i + 1, t);
                crate::forest::lemma_usize_max_pow2();
                assert(pow2(i + 1) == 2 * pow2(i)) by {
                    vstd::arithmetic::power2::lemma_pow2_unfold(i + 1);
                }
                assert(pow2(1) == 2) by {
                    vstd::arithmetic::power2::lemma2_to64();
                }
                assert(left_tree * pow2(1) <= usize::MAX);
                vstd::bits::lemma_usize_shl_is_mul(left_tree, 1usize);
                assert((left_tree << 1usize) as nat == pow2(i + 1));
            }
            left_tree = left_tree << 1usize;
            proof {
                i = i + 1;
                if i < t {
                    lemma_bit_set_trailing(f, i);
                    lemma_count_nodes_step(f, i);
                    crate::model::lemma_count_nodes_bounds(clear_low(f, i + 1));
                }
            }
        }
        proof {
            assert(i == t) by {
                assert(i < 64) by {
                    crate::forest::lemma_usize_max_pow2();
                    if i >= usize::BITS as nat {
                        lemma_pow2_le(usize::BITS as nat, i);
                        assert(false);
                    }
                    vstd::arithmetic::power2::lemma2_to64();
                    vstd::arithmetic::power2::lemma2_to64_rest();
                }
                crate::forest::lemma_bit_test_usize(self.forest, left_tree, i);
                if i < t {
                    lemma_bit_set_trailing(f, i);
                }
            }
            lemma_forest_push(l, el);
        }
        self.forest = self.forest + 1;
        self.leaves = Ghost(l.push(el));
    }

    /// Returns an accumulator representing the current state: the forest
    /// value and the root of every tree, highest tree first.
    pub fn accumulator(&self) -> (r: crate::peaks::MmrPeaks)
        requires
            self.wf(),
        ensures
            r.num_leaves == self.forest,
            r.peaks@ == crate::model::peaks_of(self.leaves@),
            r.wf(),
    {
        let ghost f = self.forest as nat;
        let ghost l = self.leaves@;
        let total = self.nodes.len();
        let mut peaks: Vec<RpoDigest> = Vec::new();
        let mut it = crate::bit::TrueBitPositionIterator::new(self.forest);
        let mut offset: usize = 0;
        let ghost mut k: nat = usize::BITS as nat;
        proof {
            crate::forest::lemma_usize_max_pow2();
            lemma_pow2_pos(k);
            vstd::arithmetic::div_mod::lemma_small_mod(f, pow2(k));
            vstd::arithmetic::div_mod::lemma_basic_div(f as int, pow2(k) as int);
            lemma_forest_nodes_len(l);
            crate::model::lemma_peaks_len(l);
            crate::model::lemma_count_nodes_bounds(f);
            assert(clear_low(f, k) == 0);
            assert(crate::model::peaks_of(l).take(0) =~= Seq::<RpoDigest>::empty());
            assert(pop_count(f / pow2(k)) == 0);
        }
        while it.value != 0
            invariant
                self.wf(),
                f == self.forest as nat,
                l == self.leaves@,
                total == self.nodes@.len(),
                usize::MAX as nat + 1 == pow2(usize::BITS as nat),
                k <= usize::BITS,
                it.value as nat == f % pow2(k),
                offset == count_nodes(clear_low(f, k)),
                0 <= count_nodes(clear_low(f, k)) <= total,
                peaks@ == crate::model::peaks_of(l).take(pop_count(f / pow2(k)) as int),
                pop_count(f / pow2(k)) <= crate::model::peaks_of(l).len(),
                forest_nodes(l).len() == count_nodes(f),
                count_nodes(f) == total,
            decreases it.value,
        {
            let ghost v = it.value as nat;
            let bit_opt = it.next_back();
            let bit = bit_opt.unwrap();
            let ghost b = bit as nat;
            proof {
                crate::model::lemma_bit_len_bounds(v);
                lemma_pow2_pos(k);
                vstd::arithmetic::div_mod::lemma_mod_bound(f as int, pow2(k) as int);
                crate::forest::lemma_bit_len_le(v, k);
                assert(b + 1 <= k);
                crate::model::lemma_peaks_step(f, k, b);
                crate::model::lemma_peak_at(l, b);
                lemma_tree_segment(l, b);
                crate::model::lemma_pop_count_pow2(b);
                crate::model::lemma_bit_set_lt_bit_len(f, b);
                assert(pow2(b) <= f);
                vstd::bits::lemma_usize_pow2_no_overflow(b);
                vstd::bits::lemma_usize_shl_is_mul(1usize, bit as usize);
                crate::model::lemma_count_nodes_bounds(clear_low(f, k));
            }
            let el = nodes_in_forest(1usize << (bit as usize));
            offset = offset + el;
            proof {
                // the new offset ends exactly at the root of tree `b`
                let lo = clear_low(f, b + 1);
                let sub = l.subrange(lo as int, lo + pow2(b) as int);
                let no = count_nodes(lo);
                lemma_tree_nodes_len(sub);
                lemma_tree_nodes_last(sub);
                assert(offset as int == no + 2 * pow2(b) - 1);
                assert(forest_nodes(l)[no + 2 * pow2(b) - 2] == tree_nodes(sub).last()) by {
                    assert(forest_nodes(l).subrange(no, no + 2 * pow2(b) - 1)[2 * pow2(b) - 2]
                        == tree_nodes(sub)[2 * pow2(b) - 2]);
                }
                assert(self.nodes@[offset - 1] == tree_root(sub));
                assert(crate::model::peaks_of(l)[pop_count(f / pow2(b + 1)) as int] == tree_root(
                    sub,
                ));
            }
            let ghost j = pop_count(f / pow2(k));
            peaks.push(self.nodes[offset - 1]);
            proof {
                k = b;
                assert(pop_count(f / pow2(b + 1)) == j);
                assert(peaks@ =~= crate::model::peaks_of(l).take(pop_count(f / pow2(k)) as int));
            }
        }
        proof {
            // no bits left: every peak has been collected
            lemma_pow2_pos(k);
            assert(f % pow2(k) == 0);
            assert(pop_count(f / pow2(k)) == pop_count(f)) by {
                crate::forest::lemma_clear_low_le(f, k);
                assert(clear_low(f, k) == f);
                crate::model::lemma_pop_count_shift(f / pow2(k), k);
            }
            crate::model::lemma_peaks_len(l);
            assert(crate::model::peaks_of(l).take(crate::model::peaks_of(l).len() as int)
                =~= crate::model::peaks_of(l));
        }
        crate::peaks::MmrPeaks { num_leaves: self.forest, peaks }
    }

    /// Returns the leaf value at position `pos`, or the bounds error when the
    /// position is at or beyond the current leaf count.
    ///
    /// The position is the 0-indexed append order: the first element has
    /// position 0, the second 1, and so on.
    pub fn get(&self, pos: usize) -> (r: Result<RpoDigest, MmrError>)
        requires
            self.wf(),
        ensures
            pos < self.forest ==> r == Ok::<RpoDigest, MmrError>(self.leaves@[pos as int]),
            pos >= self.forest ==> r == Err::<RpoDigest, MmrError>(MmrError::InvalidPosition(pos)),
    {
        let tree_bit = match leaf_to_corresponding_tree(pos, self.forest) {
            None => {
                return Err(MmrError::InvalidPosition(pos));
            },
            Some(b) => b,
        };
        let ghost f = self.forest as nat;
        let ghost b = tree_bit as nat;
        proof {
            crate::model::lemma_bit_set_lt_bit_len(f, b);
            crate::forest::lemma_clear_low_le(f, b + 1);
            crate::forest::lemma_clear_low_step(f, b);
            crate::forest::lemma_clear_low_le(f, b);
            crate::model::lemma_pop_count_pow2(b);
            lemma_pow2_pos(b);
            vstd::bits::lemma_usize_pow2_no_overflow(b);
            vstd::bits::lemma_usize_shl_is_mul(1usize, tree_bit as usize);
        }
        let forest_target = 1usize << (tree_bit as usize);
        let forest_before = self.forest & high_bitmask(tree_bit + 1);
        let index_offset = nodes_in_forest(forest_before);
        let index = nodes_in_forest(forest_target) - 1;
        let relative_pos = pos - forest_before;
        let (value, _) = self.collect_merkle_path_and_value(
            tree_bit,
            relative_pos,
            index_offset,
            index,
        );
        proof {
            assert(crate::model::owner_tree_leaves(self.leaves@, b)[relative_pos as int]
                == self.leaves@[pos as int]);
        }
        Ok(value)
    }

    /// Returns the Merkle path from the leaf at `pos` to its tree's root, or
    /// the bounds error when the position is at or beyond the leaf count.
    ///
    /// The proof embeds the forest value at the time of the call and the
    /// absolute position, so a peaks snapshot of the same forest can check it
    /// on its own.
    pub fn open(&self, pos: usize) -> (r: Result<MmrProof, MmrError>)
        requires
            self.wf(),
        ensures
            pos < self.forest ==> ({
                let b = crate::model::owner_bit(self.forest as nat, pos as nat);
                let tl = crate::model::owner_tree_leaves(self.leaves@, b);
                let rel = pos - clear_low(self.forest as nat, b + 1);
                &&& r is Ok
                &&& r->Ok_0.forest == self.forest
                &&& r->Ok_0.position == pos
                &&& r->Ok_0.merkle_path.nodes@ == crate::model::merkle_path(tl, rel as nat)
            }),
            pos >= self.forest ==> r == Err::<MmrProof, MmrError>(MmrError::InvalidPosition(pos)),
    {
        let tree_bit = match leaf_to_corresponding_tree(pos, self.forest) {
            None => {
                return Err(MmrError::InvalidPosition(pos));
            },
            Some(b) => b,
        };
        let ghost f = self.forest as nat;
        let ghost b = tree_bit as nat;
        proof {
            crate::model::lemma_bit_set_lt_bit_len(f, b);
            crate::forest::lemma_clear_low_le(f, b + 1);
            crate::forest::lemma_clear_low_step(f, b);
            crate::forest::lemma_clear_low_le(f, b);
            crate::model::lemma_pop_count_pow2(b);
            lemma_pow2_pos(b);
            vstd::bits::lemma_usize_pow2_no_overflow(b);
            vstd::bits::lemma_usize_shl_is_mul(1usize, tree_bit as usize);
            assert(crate::model::owner_bit(f, pos as nat) == b) by {
                assert(crate::forest::owns_leaf(f, b, pos as nat));
                let bc = crate::model::owner_bit(f, pos as nat);
                assert(crate::forest::owns_leaf(f, bc, pos as nat));
                crate::forest::lemma_owner_unique(f, pos as nat, bc, b);
            }
        }
        let forest_target = 1usize << (tree_bit as usize);
        let forest_before = self.forest & high_bitmask(tree_bit + 1);
        let index_offset = nodes_in_forest(forest_before);
        let index = nodes_in_forest(forest_target) - 1;
        let relative_pos = pos - forest_before;
        let (_, path) = self.collect_merkle_path_and_value(
            tree_bit,
            relative_pos,
            index_offset,
            index,
        );
        Ok(MmrProof { forest: self.forest, position: pos, merkle_path: MerklePath::new(path) })
    }

    /// Returns a fresh enumerator over the inner nodes of the accumulator.
    pub fn inner_nodes(&self) -> (r: crate::nodes::MmrNodes<'_>)
        requires
            self.wf(),
        ensures
            r.wf(),
            r.mmr == self,
            r.forest == 0,
            r.last_right == 0,
            r.index == 0,
            r.yielded@ == Seq::<crate::nodes::InnerNodeInfo>::empty(),
    {
        proof {
            reveal_with_fuel(pop_count, 2);
            assert(count_nodes(0nat) == 0);
            vstd::arithmetic::div_mod::lemma_mod_bound(0int, 2);
            assert(crate::nodes::regions_inner(self.leaves@, 0) =~= Seq::<
                crate::nodes::InnerNodeInfo,
            >::empty());
            assert(crate::nodes::tree_inner(self.leaves@.subrange(0, 0)) =~= Seq::<
                crate::nodes::InnerNodeInfo,
            >::empty());
        }
        crate::nodes::MmrNodes {
            mmr: self,
            forest: 0,
            last_right: 0,
            index: 0,
            lr_exp: Ghost(0),
            yielded: Ghost(Seq::empty()),
        }
    }

    /// Builds an accumulator from a finite sequence of digests: the same as
    /// appending every element, in order, to an empty accumulator.
    pub fn from_digests(values: &[RpoDigest]) -> (r: Mmr)
        requires
            values@.len() < usize::MAX / 2,
        ensures
            r.wf(),
            r.leaves@ == values@,
            r.forest == values@.len(),
    {
        let mut mmr = Mmr::new();
        let mut i: usize = 0;
        proof {
            assert(values@.take(0) =~= Seq::<RpoDigest>::empty());
        }
        while i < values.len()
            invariant
                0 <= i <= values@.len(),
                values@.len() < usize::MAX / 2,
                mmr.wf(),
                mmr.forest == i,
                mmr.leaves@ == values@.take(i as int),
            decreases values@.len() - i,
        {
            mmr.add(values[i]);
            proof {
                assert(mmr.leaves@ =~= values@.take(i + 1));
            }
            i = i + 1;
        }
        proof {
            assert(values@.take(values@.len() as int) =~= values@);
        }
        mmr
    }

    /// Walks from the root of the tree at `tree_bit` down to the leaf at
    /// `relative_pos`, collecting the sibling digest of every step; returns
    /// the leaf value and the siblings in leaf-to-root order.
    ///
    /// `index_offset` is where the tree's postorder segment starts in the
    /// node buffer; `index` is the segment-relative index of its root.
    fn collect_merkle_path_and_value(
        &self,
        tree_bit: u32,
        relative_pos: usize,
        index_offset: usize,
        index: usize,
    ) -> (r: (RpoDigest, Vec<RpoDigest>))
        requires
            self.wf(),
            tree_bit < usize::BITS,
            bit_set(self.forest as nat, tree_bit as nat),
            index_offset == count_nodes(clear_low(self.forest as nat, tree_bit as nat + 1)),
            index as int == 2 * pow2(tree_bit as nat) - 2,
            relative_pos < pow2(tree_bit as nat),
        ensures
            ({
                let tl = crate::model::owner_tree_leaves(self.leaves@, tree_bit as nat);
                &&& r.0 == tl[relative_pos as int]
                &&& r.1@ == crate::model::merkle_path(tl, relative_pos as nat)
            }),
    {
        let ghost f = self.forest as nat;
        let ghost l = self.leaves@;
        let ghost bt = tree_bit as nat;
        let ghost lo = clear_low(f, bt + 1);
        let ghost tl = crate::model::owner_tree_leaves(l, bt);
        let ghost tn = tree_nodes(tl);
        proof {
            lemma_tree_segment(l, bt);
            lemma_pow2_pos(bt);
            assert(tl.len() == pow2(bt));
            lemma_tree_nodes_len(tl);
            lemma_forest_nodes_len(l);
            crate::forest::lemma_usize_max_pow2();
        }
        let total = self.nodes.len();
        let mut index = index;
        let mut tree_depth = tree_bit;
        let mut path: Vec<RpoDigest> = Vec::new();
        let ghost mut a: nat = 0;
        let ghost mut s: int = 0;
        proof {
            assert(tn.subrange(0, 2 * pow2(bt) - 1) =~= tn);
            assert(tl.subrange(0, pow2(bt) as int) =~= tl);
            assert(a % pow2(bt) == 0) by {
                vstd::arithmetic::div_mod::lemma_small_mod(0, pow2(bt));
            }
            assert(crate::model::merkle_path(tl, relative_pos as nat) =~= crate::model::merkle_path(
                tl.subrange(0, pow2(bt) as int),
                relative_pos as nat,
            ) + path@.reverse());
        }
        while tree_depth > 0
            invariant
                tree_depth <= tree_bit,
                tree_bit < usize::BITS,
                usize::MAX as nat + 1 == pow2(usize::BITS as nat),
                self.wf(),
                f == self.forest as nat,
                l == self.leaves@,
                bt == tree_bit as nat,
                lo == clear_low(f, bt + 1),
                tl == crate::model::owner_tree_leaves(l, bt),
                tl.len() == pow2(bt),
                tn == tree_nodes(tl),
                tn.len() == 2 * pow2(bt) - 1,
                index_offset + tn.len() <= self.nodes@.len(),
                self.nodes@.len() == total,
                forest_nodes(l).subrange(index_offset as int, index_offset + tn.len()) == tn,
                relative_pos < pow2(bt),
                ({
                    let d = tree_depth as nat;
                    &&& a % pow2(d) == 0
                    &&& a <= relative_pos < a + pow2(d)
                    &&& a + pow2(d) <= pow2(bt)
                    &&& 0 <= s
                    &&& s + 2 * pow2(d) - 1 <= tn.len()
                    &&& tn.subrange(s, s + 2 * pow2(d) - 1) == tree_nodes(
                        tl.subrange(a as int, a + pow2(d) as int),
                    )
                    &&& index as int == s + 2 * pow2(d) - 2
                    &&& crate::model::merkle_path(tl, relative_pos as nat)
                        == crate::model::merkle_path(
                        tl.subrange(a as int, a + pow2(d) as int),
                        (relative_pos - a) as nat,
                    ) + path@.reverse()
                    &&& path@.len() == tree_bit - tree_depth
                }),
            decreases tree_depth,
        {
            let ghost d = tree_depth as nat;
            let ghost cur = tl.subrange(a as int, a + pow2(d) as int);
            let ghost h = pow2((d - 1) as nat) as int;
            let ghost rc = (relative_pos - a) as nat;
            proof {
                lemma_pow2_pos(d);
                lemma_pow2_pos((d - 1) as nat);
                vstd::arithmetic::power2::lemma_pow2_unfold(d);
                lemma_pow2_le(d, bt);
                vstd::bits::lemma_usize_pow2_no_overflow((d - 1) as nat);
                vstd::bits::lemma_usize_shl_is_mul(1usize, (tree_depth - 1) as usize);
            }
            let level_size = 1usize << ((tree_depth - 1) as usize);
            let bit = relative_pos & level_size;
            let sibling_nodes = nodes_in_forest(level_size);
            proof {
                crate::model::lemma_pop_count_pow2((d - 1) as nat);
                assert(sibling_nodes as int == 2 * h - 1);
                crate::model::lemma_segment_split(tn, tl, s, a, d);
                crate::forest::lemma_bit_test_usize(relative_pos, level_size, (d - 1) as nat);
                crate::model::lemma_rel_bit(a, rc, d);
                assert(bit_set(relative_pos as nat, (d - 1) as nat) == (rc >= pow2(
                    (d - 1) as nat,
                )));
                // the two buffer entries the step may read
                assert(self.nodes@[index_offset + (s + 2 * h - 2)] == tn[s + 2 * h - 2]) by {
                    let seg = forest_nodes(l).subrange(index_offset as int, index_offset
                        + tn.len());
                    assert(seg[s + 2 * h - 2] == tn[s + 2 * h - 2]);
                }
                assert(self.nodes@[index_offset + (s + 4 * h - 3)] == tn[s + 4 * h - 3]) by {
                    let seg = forest_nodes(l).subrange(index_offset as int, index_offset
                        + tn.len());
                    assert(seg[s + 4 * h - 3] == tn[s + 4 * h - 3]);
                }
            }
            let right_offset = index - 1;
            let left_offset = right_offset - sibling_nodes;
            let sibling = if bit != 0 {
                index = right_offset;
                self.nodes[index_offset + left_offset]
            } else {
                index = left_offset;
                self.nodes[index_offset + right_offset]
            };
            proof {
                let dm = (d - 1) as nat;
                assert(cur.len() == pow2(d));
                assert(cur.len() as int / 2 == h) by {
                    vstd::arithmetic::div_mod::lemma_div_multiples_vanish(h, 2);
                }
                if rc >= pow2(dm) {
                    // descend right: the sibling is the left half's root
                    assert(sibling == tree_root(tl.subrange(a as int, a + h)));
                    assert(cur.take(h) =~= tl.subrange(a as int, a + h));
                    assert(cur.skip(h) =~= tl.subrange(a + h, a + pow2(d) as int));
                    assert(crate::model::merkle_path(cur, rc) == crate::model::merkle_path(
                        cur.skip(h),
                        (rc - h) as nat,
                    ) + seq![tree_root(cur.take(h))]);
                    assert(sibling == tree_root(cur.take(h)));
                    a = a + pow2(dm);
                    s = s + 2 * h - 1;
                } else {
                    // descend left: the sibling is the right half's root
                    assert(sibling == tree_root(tl.subrange(a + h, a + 2 * h)));
                    assert(cur.take(h) =~= tl.subrange(a as int, a + h));
                    assert(cur.skip(h) =~= tl.subrange(a + h, a + pow2(d) as int));
                    assert(crate::model::merkle_path(cur, rc) == crate::model::merkle_path(
                        cur.take(h),
                        rc,
                    ) + seq![tree_root(cur.skip(h))]);
                    assert(sibling == tree_root(cur.skip(h)));
                }
                assert(a % pow2(dm) == 0) by {
                    lemma_mod_multiple_split(a, dm);
                }
            }
            tree_depth = tree_depth - 1;
            let ghost p0 = path@;
            path.push(sibling);
            proof {
                let dm = (d - 1) as nat;
                let cur2 = tl.subrange(a as int, a + pow2(dm) as int);
                assert(tn.subrange(s, s + 2 * pow2(dm) - 1) == tree_nodes(cur2));
                assert(path@ =~= p0.push(sibling));
                assert(path@.reverse() =~= seq![sibling] + p0.reverse());
                assert(crate::model::merkle_path(tl, relative_pos as nat)
                    =~= crate::model::merkle_path(cur2, (relative_pos - a) as nat)
                    + path@.reverse());
            }
        }
        proof {
            assert(pow2(0) == 1) by {
                vstd::arithmetic::power2::lemma2_to64();
            }
            assert(a == relative_pos as nat);
            let cur = tl.subrange(a as int, a as int + 1);
            assert(cur.len() == 1);
            assert(tree_nodes(cur) == cur);
            assert(tn.subrange(s, s + 1) == cur);
            assert(tn[s] == tl[relative_pos as int]) by {
                assert(tn.subrange(s, s + 1)[0] == tn[s]);
                assert(cur[0] == tl[relative_pos as int]);
            }
            assert(index as int == s);
            assert(self.nodes@[index_offset + s] == tn[s]) by {
                let seg = forest_nodes(l).subrange(index_offset as int, index_offset + tn.len());
                assert(seg[s] == tn[s]);
            }
            assert(crate::model::merkle_path(cur, 0) =~= Seq::<RpoDigest>::empty());
            assert(crate::model::merkle_path(tl, relative_pos as nat) =~= path@.reverse());
        }
        let value = self.nodes[index_offset + index];
        let mut out: Vec<RpoDigest> = Vec::new();
        let mut j = path.len();
        while j > 0
            invariant
                j <= path@.len(),
                out@ == path@.skip(j as int).reverse(),
            decreases j,
        {
            j = j - 1;
            out.push(path[j]);
            proof {
                assert(out@ =~= path@.skip(j as int).reverse());
            }
        }
        proof {
            assert(path@.skip(0) =~= path@);
        }
        (value, out)
    }
}

impl Default for Mmr {
    /// The empty accumulator.
    fn default() -> (r: Mmr)
        ensures
            r.wf(),
            r.forest == 0,
            r.leaves@ == Seq::<RpoDigest>::empty(),
    {
        Mmr::new()
    }
}

/// After any number of appends, the node buffer holds exactly the node count
/// that the forest value dictates: the sum, over each set bit `b`, of the
/// `2 * pow2(b) - 1` nodes of a perfect tree of depth `b`.
pub proof fn lemma_buffer_length(m: Mmr)
    requires
        m.wf(),
    ensures
        m.nodes@.len() == count_nodes(m.forest as nat),
{
    lemma_forest_nodes_len(m.leaves@);
}

/// A multiple of `pow2(k + 1)`, possibly shifted by `pow2(k)`, is a multiple
/// of `pow2(k)`.
proof fn lemma_mod_multiple_split(a: nat, k: nat)
    requires
        a % pow2(k + 1) == 0 || (a >= pow2(k) && (a - pow2(k)) as nat % pow2(k + 1) == 0),
    ensures
        a % pow2(k) == 0,
{
    lemma_pow2_pos(k);
    lemma_pow2_pos(k + 1);
    vstd::arithmetic::power2::lemma_pow2_unfold(k + 1);
    let p = pow2(k) as int;
    if a % pow2(k + 1) == 0 {
        let q = a as int / (2 * p);
        lemma_fundamental_div_mod(a as int, 2 * p);
        assert(a as int == (2 * p) * q);
        assert(a as int == p * (2 * q) + 0) by (nonlinear_arith)
            requires
                a as int == (2 * p) * q,
        ;
        vstd::arithmetic::div_mod::lemma_fundamental_div_mod_converse(a as int, p, 2 * q, 0);
    } else {
        let b = (a - pow2(k)) as nat;
        let q = b as int / (2 * p);
        lemma_fundamental_div_mod(b as int, 2 * p);
        assert(b as int == (2 * p) * q);
        assert(a as int == p * (2 * q + 1) + 0) by (nonlinear_arith)
            requires
                b as int == (2 * p) * q,
                a as int == b as int + p,
        ;
        vstd::arithmetic::div_mod::lemma_fundamental_div_mod_converse(a as int, p, 2 * q + 1, 0);
    }
}

} // verus!
