//! Enumeration of the inner (non-leaf) nodes of the accumulator.
use vstd::arithmetic::power2::{lemma_pow2_adds, lemma_pow2_pos, lemma_pow2_unfold, pow2};
use vstd::prelude::*;

use crate::digest::RpoDigest;
use crate::mmr::Mmr;
use crate::model::{
    bit_set, clear_low, count_nodes, lemma_bit0, lemma_count_nodes_even_succ,
    lemma_count_nodes_mono, lemma_pop_count_add_set_bit, lemma_pop_count_pow2, pop_count,
};

verus! {

/// One inner node of the structure, together with the digests of its two
/// children.
#[derive(Debug, Clone, Copy, PartialEq, Eq)]
pub struct InnerNodeInfo {
    /// The digest of the node itself.
    pub value: RpoDigest,
    /// The digest of its left child.
    pub left: RpoDigest,
    /// The digest of its right child.
    pub right: RpoDigest,
}

/// The inner-node records of the perfect tree over `l`, in postorder: both
/// halves' records, then the root with the two halves' roots as children.
pub open spec fn tree_inner(l: Seq<RpoDigest>) -> Seq<InnerNodeInfo>
    decreases l.len(),
{
    if l.len() <= 1 {
        Seq::empty()
    } else {
        let h = l.len() as int / 2;
        tree_inner(l.take(h)) + tree_inner(l.skip(h)) + seq![
            InnerNodeInfo {
                value: crate::model::tree_root(l),
                left: crate::model::tree_root(l.take(h)),
                right: crate::model::tree_root(l.skip(h)),
            },
        ]
    }
}

/// The inner-node records of the whole forest over `l`, tree by tree,
/// largest tree first.
pub open spec fn forest_inner(l: Seq<RpoDigest>) -> Seq<InnerNodeInfo>
    decreases l.len(),
    via forest_inner_decreases
{
    if l.len() == 0 {
        Seq::empty()
    } else {
        let t = crate::model::top_tree(l.len()) as int;
        tree_inner(l.take(t)) + forest_inner(l.skip(t))
    }
}

#[via_fn]
proof fn forest_inner_decreases(l: Seq<RpoDigest>) {
    if l.len() > 0 {
        crate::model::lemma_bit_len_bounds(l.len());
        lemma_pow2_pos((crate::model::bit_len(l.len()) - 1) as nat);
    }
}

/// The node entries of the leading subtrees consumed so far: `fit` read as a
/// binary decomposition, one aligned perfect subtree per set bit, largest
/// first, packed from the first leaf on.
pub open spec fn regions_nodes(l: Seq<RpoDigest>, fit: nat) -> Seq<RpoDigest>
    decreases fit,
    via regions_nodes_decreases
{
    if fit == 0 {
        Seq::empty()
    } else {
        let t = crate::model::top_tree(fit) as int;
        crate::model::tree_nodes(l.take(t)) + regions_nodes(l.skip(t), (fit - t) as nat)
    }
}

#[via_fn]
proof fn regions_nodes_decreases(l: Seq<RpoDigest>, fit: nat) {
    if fit > 0 {
        crate::model::lemma_top_split(fit);
        lemma_pow2_pos((crate::model::bit_len(fit) - 1) as nat);
    }
}

/// The inner-node records of the same consumed subtrees, in the same order.
pub open spec fn regions_inner(l: Seq<RpoDigest>, fit: nat) -> Seq<InnerNodeInfo>
    decreases fit,
    via regions_inner_decreases
{
    if fit == 0 {
        Seq::empty()
    } else {
        let t = crate::model::top_tree(fit) as int;
        tree_inner(l.take(t)) + regions_inner(l.skip(t), (fit - t) as nat)
    }
}

#[via_fn]
proof fn regions_inner_decreases(l: Seq<RpoDigest>, fit: nat) {
    if fit > 0 {
        crate::model::lemma_top_split(fit);
        lemma_pow2_pos((crate::model::bit_len(fit) - 1) as nat);
    }
}

/// Yields the inner nodes of an [`Mmr`], each with its two children, one per
/// call of [`Self::next`].
///
/// No merge is recomputed: every digest already stands in the node buffer.
/// The state is a pair of bitmasks threading the postorder walk: `forest`
/// buffers the left siblings already seen, `last_right` the right sibling
/// whose parent comes next, and `index` cursors through the buffer.  The walk
/// ends once `forest` reaches the accumulator's forest value with its lowest
/// (leaf-only, size one) tree removed.
pub struct MmrNodes<'a> {
    /// The accumulator being walked.
    pub mmr: &'a Mmr,
    /// The left nodes seen so far and still waiting for a right sibling.
    pub forest: usize,
    /// The last right node seen; its parent is yielded next.
    pub last_right: usize,
    /// The current position in the node buffer.
    pub index: usize,
    /// The depth of the tree that `last_right` stands for.
    pub lr_exp: Ghost<nat>,
    /// The records yielded so far.
    pub yielded: Ghost<Seq<InnerNodeInfo>>,
}

impl<'a> MmrNodes<'a> {
    /// The bookkeeping invariant of the walk: the two masks never outrun the
    /// forest, `last_right` is a single tree whose bit also stands in
    /// `forest`, and the cursor equals the node count of both masks.
    pub open spec fn wf(self) -> bool {
        let c = self.forest as nat + self.last_right as nat;
        &&& self.mmr.wf()
        &&& c <= self.mmr.forest as nat
        &&& (self.last_right == 0 ==> self.forest as nat % 2 == 0)
        &&& (self.last_right != 0 ==> self.last_right as nat == pow2(self.lr_exp@) && bit_set(
            self.forest as nat,
            self.lr_exp@,
        ))
        &&& (self.last_right != 0 && self.lr_exp@ >= 1 ==> self.forest as nat % 2 == 0)
        &&& (self.last_right != 0 ==> self.forest as nat % pow2(self.lr_exp@) == 0)
        &&& self.index as int == count_nodes(self.forest as nat) + count_nodes(
            self.last_right as nat,
        )
        &&& self.yielded@ == regions_inner(self.mmr.leaves@, self.forest as nat) + tree_inner(
            self.mmr.leaves@.subrange(
                self.forest as int,
                self.forest as int + self.last_right as int,
            ),
        )
    }

    /// Yields the next inner node with its children, or `None` once every
    /// inner node has been yielded.
    ///
    /// Each yielded record extends the record of the walk by one; `None`
    /// comes exactly when the left-sibling mask has reached the accumulator's
    /// forest value with its lowest bit cleared, and by then the walk has
    /// yielded exactly the inner nodes of the whole structure, in order.
    #[verifier::rlimit(60)]
    pub fn next(&mut self) -> (r: Option<InnerNodeInfo>)
        requires
            old(self).wf(),
        ensures
            final(self).wf(),
            final(self).mmr == old(self).mmr,
            (r is None) <==> old(self).forest as nat >= clear_low(old(self).mmr.forest as nat, 1),
            r matches Some(info) ==> final(self).yielded@ == old(self).yielded@.push(info),
            r is None ==> final(self).yielded@ == old(self).yielded@ && old(self).yielded@
                == forest_inner(old(self).mmr.leaves@),
    {
        let ghost l = self.mmr.leaves@;
        let ghost big_f = self.mmr.forest as nat;
        // only parent nodes are emitted: remove the single-node tree
        let target = self.mmr.forest & crate::forest::high_bitmask(1);
        proof {
            crate::forest::lemma_usize_max_pow2();
            assert(pow2(0) == 1 && pow2(1) == 2) by {
                vstd::arithmetic::power2::lemma2_to64();
            }
            crate::forest::lemma_clear_low_le(big_f, 1);
        }
        if self.forest < target {
            let ghost f0 = self.forest as nat;
            proof {
                crate::model::lemma_count_nodes_bounds(big_f);
                crate::model::lemma_forest_nodes_len(self.mmr.leaves@);
            }
            if self.last_right == 0 {
                // pass the left leaf, then the right leaf
                proof {
                    lemma_bit0(f0);
                    assert(!bit_set(f0, 0));
                    crate::forest::lemma_or_bit(self.forest, 1usize, 0);
                    lemma_count_nodes_even_succ(f0);
                }
                self.forest = self.forest | 1;
                self.index = self.index + 1;
                self.last_right = self.last_right | 1;
                self.index = self.index + 1;
                proof {
                    self.lr_exp = Ghost(0nat);
                    assert((0usize | 1usize) == 1usize) by (bit_vector);
                    lemma_bit0(f0 + 1);
                    assert(bit_set(self.forest as nat, 0));
                    reveal_with_fuel(pop_count, 3);
                    assert(count_nodes(1nat) == 1);
                    // an even value strictly below an even bound leaves room for two
                    assert(f0 + 2 <= big_f);
                    // the two passed leaves add no record
                    lemma_regions_snoc(l, f0, 0);
                    assert(tree_inner(l.subrange(f0 as int, f0 as int)) =~= Seq::<
                        InnerNodeInfo,
                    >::empty());
                    assert(tree_inner(l.subrange(f0 as int, f0 as int + 1))
                        == Seq::<InnerNodeInfo>::empty());
                    assert(tree_inner(l.subrange(f0 as int + 1, f0 as int + 2)) == Seq::<
                        InnerNodeInfo,
                    >::empty());
                    assert(self.yielded@ =~= regions_inner(l, f0 + 1) + tree_inner(
                        l.subrange(f0 as int + 1, f0 as int + 2),
                    ));
                    assert((f0 + 1) as nat % pow2(0) == 0) by {
                        vstd::arithmetic::div_mod::lemma_fundamental_div_mod((f0 + 1) as int, 1);
                    }
                }
            }
            let ghost f1 = self.forest as nat;
            let ghost j = self.lr_exp@;
            proof {
                assert(self.last_right as nat == pow2(j));
                assert(bit_set(f1, j));
                crate::model::lemma_bit_set_lt_bit_len(f1, j);
                lemma_pop_count_add_set_bit(f1, j);
                lemma_count_nodes_mono((f1 + pow2(j)) as nat, big_f);
                lemma_pop_count_pow2(j);
                crate::model::lemma_count_nodes_bounds(f1);
                crate::model::lemma_count_nodes_bounds(pow2(j));
                assert(self.last_right <= usize::MAX / 2);
                assert(pow2(j) * 2 == pow2(j + 1)) by {
                    lemma_pow2_unfold(j + 1);
                }
                assert(j + 1 < 64) by {
                    crate::forest::lemma_usize_max_pow2();
                    crate::forest::lemma_bit_len_le(big_f, usize::BITS as nat);
                    if j + 1 >= usize::BITS as nat {
                        crate::model::lemma_pow2_le(usize::BITS as nat, j + 1);
                        assert(pow2(j + 1) <= big_f + big_f);
                        assert(false);
                    }
                    vstd::arithmetic::power2::lemma2_to64();
                    vstd::arithmetic::power2::lemma2_to64_rest();
                }
            }
            let ghost base = (f1 - pow2(j)) as nat;
            let ghost comb = l.subrange(base as int, base + pow2(j + 1) as int);
            let ghost lreg = l.subrange(base as int, base + pow2(j) as int);
            let ghost rreg = l.subrange(f1 as int, f1 + pow2(j) as int);
            let ghost rec = InnerNodeInfo {
                value: crate::model::tree_root(comb),
                left: crate::model::tree_root(lreg),
                right: crate::model::tree_root(rreg),
            };
            proof {
                assert(f1 % pow2(j) == 0);
                lemma_yield_step(l, f1, j);
            }
            // the offset from the parent back to the previous left sibling
            let right_nodes = crate::forest::nodes_in_forest(self.last_right);
            let parent = self.last_right << 1usize;
            proof {
                vstd::bits::lemma_usize_shl_is_mul(self.last_right, 1usize);
                assert(parent as nat == pow2(j + 1));
                crate::forest::lemma_clear_bit(self.forest, self.last_right, j);
            }
            // the left sibling has found its pair: drop it from the mask
            self.forest = self.forest ^ self.last_right;
            let ghost f2 = self.forest as nat;
            proof {
                assert(f2 == f1 - pow2(j));
                crate::forest::lemma_bit_test_usize(self.forest, parent, j + 1);
            }
            if self.forest & parent == 0 {
                // this yield is a left parent: wait for its right sibling
                proof {
                    crate::forest::lemma_or_bit(self.forest, parent, j + 1);
                }
                self.last_right = 0;
                self.forest = self.forest ^ parent;
                proof {
                    self.lr_exp = Ghost(0nat);
                    // parity: removing the old bit and adding one level up
                    assert(self.forest as nat == f1 - pow2(j) + pow2(j + 1));
                    assert(self.forest as nat % 2 == 0) by {
                        lemma_parity_step(f1, j);
                    }
                    assert(count_nodes(self.forest as nat) == count_nodes(f1) + pow2(j + 1)) by {
                        lemma_count_nodes_move_up(f1, j);
                    }
                    self.yielded = Ghost(self.yielded@.push(rec));
                    assert(tree_inner(l.subrange(self.forest as int, self.forest as int)) =~= Seq::<
                        InnerNodeInfo,
                    >::empty());
                    assert(self.forest as nat == base + pow2(j + 1));
                    assert(self.yielded@ =~= regions_inner(l, self.forest as nat) + tree_inner(
                        l.subrange(self.forest as int, self.forest as int),
                    ));
                }
            } else {
                // this yield is a right parent: its own parent comes next
                self.last_right = parent;
                proof {
                    self.lr_exp = Ghost(j + 1);
                    assert(bit_set(f2, j + 1));
                    assert(self.forest as nat % 2 == 0) by {
                        lemma_parity_clear(f1, j);
                    }
                    assert(count_nodes(f2) + count_nodes(pow2(j + 1)) == count_nodes(f1)
                        + count_nodes(pow2(j)) + 1) by {
                        lemma_count_nodes_move_up2(f1, j);
                    }
                    self.yielded = Ghost(self.yielded@.push(rec));
                    assert(self.forest as nat == base);
                    assert(l.subrange(base as int, base as int + pow2(j + 1) as int) == comb);
                    assert(self.yielded@ =~= regions_inner(l, base) + tree_inner(comb));
                    assert(f2 % pow2(j + 1) == 0);
                }
            }
            // yield the parent with its two children
            let value = self.mmr.nodes[self.index];
            let right = self.mmr.nodes[self.index - 1];
            let left = self.mmr.nodes[self.index - 1 - right_nodes];
            proof {
                assert(value == rec.value && right == rec.right && left == rec.left) by {
                    let n = count_nodes(base) + 2 * pow2(j + 1) - 1;
                    assert(self.index as int == n - 1);
                }
            }
            self.index = self.index + 1;
            Some(InnerNodeInfo { value, left, right })
        } else {
            proof {
                // nothing is left: the mask holds every whole tree but the
                // single-leaf one, so every inner node has been yielded
                let target = clear_low(big_f, 1);
                assert(big_f - target == big_f % 2);
                assert(self.last_right == 0 && self.forest as nat == target) by {
                    if self.last_right != 0 {
                        if self.lr_exp@ >= 1 {
                            lemma_pow2_pos(self.lr_exp@);
                            crate::model::lemma_pow2_le(1, self.lr_exp@);
                            assert(self.last_right >= 2);
                            assert(false);
                        } else {
                            assert(self.last_right == 1) by {
                                assert(pow2(0nat) == 1);
                            }
                            crate::model::lemma_bit0(self.forest as nat);
                            assert(self.forest as nat % 2 == 1);
                            assert(self.forest as nat + 1 <= big_f);
                            assert(big_f % 2 == 0 ==> self.forest as nat >= big_f);
                            assert(big_f % 2 == 1 ==> self.forest as nat == big_f - 1);
                            assert(false);
                        }
                    }
                }
                lemma_regions_inner_full(l);
                assert(tree_inner(l.subrange(self.forest as int, self.forest as int)) =~= Seq::<
                    InnerNodeInfo,
                >::empty());
                assert(self.yielded@ =~= forest_inner(l));
            }
            None
        }
    }
}

/// An aligned value with bit `j` set splits into a longer-aligned base plus
/// that bit.
proof fn lemma_aligned_set_bit(f1: nat, j: nat)
    requires
        f1 % pow2(j) == 0,
        bit_set(f1, j),
    ensures
        pow2(j) <= f1,
        ((f1 - pow2(j)) as nat) % pow2(j + 1) == 0,
{
    lemma_pow2_pos(j);
    lemma_pow2_pos(j + 1);
    lemma_pow2_unfold(j + 1);
    let q = f1 / pow2(j);
    vstd::arithmetic::div_mod::lemma_fundamental_div_mod(f1 as int, pow2(j) as int);
    vstd::arithmetic::div_mod::lemma_fundamental_div_mod(q as int, 2);
    assert(q % 2 == 1);
    assert(f1 as int == pow2(j + 1) * (q as int / 2) + pow2(j)) by (nonlinear_arith)
        requires
            f1 as int == pow2(j) * (q as int),
            q as int == 2 * (q as int / 2) + 1,
            pow2(j + 1) == 2 * pow2(j),
    ;
    assert(pow2(j + 1) * (q as int / 2) >= 0) by (nonlinear_arith)
        requires
            pow2(j + 1) >= 0,
            q as int / 2 >= 0,
    ;
    vstd::arithmetic::div_mod::lemma_fundamental_div_mod_converse(
        (f1 - pow2(j)) as int,
        pow2(j + 1) as int,
        q as int / 2,
        0,
    );
}

/// An aligned value with bit `j` clear is aligned one digit further.
proof fn lemma_aligned_clear_bit(base: nat, j: nat)
    requires
        base % pow2(j) == 0,
        !bit_set(base, j),
    ensures
        base % pow2(j + 1) == 0,
{
    lemma_pow2_pos(j);
    lemma_pow2_pos(j + 1);
    lemma_pow2_unfold(j + 1);
    let q = base / pow2(j);
    vstd::arithmetic::div_mod::lemma_fundamental_div_mod(base as int, pow2(j) as int);
    vstd::arithmetic::div_mod::lemma_fundamental_div_mod(q as int, 2);
    assert(q % 2 == 0);
    assert(base as int == pow2(j + 1) * (q as int / 2) + 0) by (nonlinear_arith)
        requires
            base as int == pow2(j) * (q as int),
            q as int == 2 * (q as int / 2),
            pow2(j + 1) == 2 * pow2(j),
    ;
    vstd::arithmetic::div_mod::lemma_fundamental_div_mod_converse(
        base as int,
        pow2(j + 1) as int,
        q as int / 2,
        0,
    );
}

/// What one merge step of the walk yields: the record standing at the next
/// buffer position is the parent of the two pending sibling subtrees, and
/// consuming it extends the record sequence by exactly that parent.
proof fn lemma_yield_step(l: Seq<RpoDigest>, f1: nat, j: nat)
    requires
        f1 % pow2(j) == 0,
        bit_set(f1, j),
        f1 + pow2(j) <= l.len(),
    ensures
        ({
            let base = (f1 - pow2(j)) as nat;
            let n = count_nodes(base) + 2 * pow2(j + 1) - 1;
            let comb = l.subrange(base as int, base + pow2(j + 1) as int);
            let lreg = l.subrange(base as int, base + pow2(j) as int);
            let rreg = l.subrange(f1 as int, f1 + pow2(j) as int);
            let rec = InnerNodeInfo {
                value: crate::model::tree_root(comb),
                left: crate::model::tree_root(lreg),
                right: crate::model::tree_root(rreg),
            };
            &&& pow2(j) <= f1
            &&& base % pow2(j + 1) == 0
            &&& count_nodes(f1) == count_nodes(base) + 2 * pow2(j) - 1
            &&& 0 <= n <= crate::model::forest_nodes(l).len()
            &&& crate::model::forest_nodes(l)[n - 1] == rec.value
            &&& crate::model::forest_nodes(l)[n - 2] == rec.right
            &&& crate::model::forest_nodes(l)[n - 2 - (2 * pow2(j) - 1)] == rec.left
            &&& (regions_inner(l, f1) + tree_inner(rreg)).push(rec) == regions_inner(l, base)
                + tree_inner(comb)
            &&& (!bit_set(base, j + 1) ==> regions_inner(l, (base + pow2(j + 1)) as nat)
                == regions_inner(l, base) + tree_inner(comb))
        }),
{
    lemma_pow2_pos(j);
    lemma_pow2_pos(j + 1);
    lemma_pow2_unfold(j + 1);
    lemma_aligned_set_bit(f1, j);
    let base = (f1 - pow2(j)) as nat;
    let n = count_nodes(base) + 2 * pow2(j + 1) - 1;
    let comb = l.subrange(base as int, base + pow2(j + 1) as int);
    let lreg = l.subrange(base as int, base + pow2(j) as int);
    let rreg = l.subrange(f1 as int, f1 + pow2(j) as int);
    crate::model::lemma_count_nodes_bounds(base);
    lemma_regions_snoc(l, base, j);
    lemma_align(l, base, j + 1);
    lemma_regions_len(l, base);
    crate::model::lemma_forest_nodes_len(l);
    crate::model::lemma_tree_nodes_len(comb);
    let tn = crate::model::forest_nodes(l);
    let s = count_nodes(base);
    // the parent's postorder segment stands right after the consumed entries
    assert(tn.subrange(s, n) =~= crate::model::tree_nodes(comb)) by {
        assert forall|i: int| 0 <= i < 2 * pow2(j + 1) - 1 implies tn[s + i]
            == #[trigger] crate::model::tree_nodes(comb)[i] by {
            assert(tn.take(n)[s + i] == tn[s + i]);
            assert(tn.take(n)[s + i] == (regions_nodes(l, base) + crate::model::tree_nodes(
                comb,
            ))[s + i]);
        }
    }
    crate::model::lemma_segment_split(tn, l, s, base, j + 1);
    crate::model::lemma_tree_nodes_last(comb);
    assert(tn[n - 1] == crate::model::tree_root(comb)) by {
        assert(tn.subrange(s, n)[2 * pow2(j + 1) - 2] == tn[n - 1]);
        assert(crate::model::tree_nodes(comb)[2 * pow2(j + 1) - 2]
            == crate::model::tree_nodes(comb).last());
    }
    let h = pow2(j) as int;
    assert(l.subrange(base as int, base + h) == lreg);
    assert(l.subrange(base + h, base + 2 * h) =~= rreg);
    assert(tn[s + 2 * h - 2] == crate::model::tree_root(lreg));
    assert(tn[s + 4 * h - 3] == crate::model::tree_root(rreg));
    assert(n - 2 == s + 4 * h - 3);
    assert(n - 2 - (2 * pow2(j) - 1) == s + 2 * h - 2);
    // the parent record closes the two siblings' record sequences
    assert(comb.len() == 2 * h);
    assert(comb.len() as int / 2 == h) by {
        vstd::arithmetic::div_mod::lemma_div_multiples_vanish(h, 2);
    }
    assert(comb.take(h) =~= lreg);
    assert(comb.skip(h) =~= rreg);
    assert(comb.len() > 1);
    let rec = InnerNodeInfo {
        value: crate::model::tree_root(comb),
        left: crate::model::tree_root(lreg),
        right: crate::model::tree_root(rreg),
    };
    assert(tree_inner(comb) == tree_inner(lreg) + tree_inner(rreg) + seq![rec]);
    assert((regions_inner(l, f1) + tree_inner(rreg)).push(rec) =~= regions_inner(l, base)
        + tree_inner(comb));
    if !bit_set(base, j + 1) {
        lemma_aligned_clear_bit(base, j + 1);
        lemma_regions_snoc(l, base, j + 1);
    }
}

/// Taking past the first part of a concatenation keeps it whole.
proof fn lemma_take_concat<T>(a: Seq<T>, b: Seq<T>, m: int)
    requires
        0 <= m <= b.len(),
    ensures
        (a + b).take(a.len() + m) == a + b.take(m),
{
    assert((a + b).take(a.len() as int + m) =~= a + b.take(m));
}

/// Taking within the first part of a concatenation ignores the rest.
proof fn lemma_take_concat_prefix<T>(a: Seq<T>, b: Seq<T>, m: int)
    requires
        0 <= m <= a.len(),
    ensures
        (a + b).take(m) == a.take(m),
{
    assert((a + b).take(m) =~= a.take(m));
}

/// The consumed subtrees hold as many node entries as a forest of that many
/// leaves.
proof fn lemma_regions_len(l: Seq<RpoDigest>, fit: nat)
    requires
        fit <= l.len(),
    ensures
        regions_nodes(l, fit).len() == count_nodes(fit),
    decreases fit,
{
    if fit > 0 {
        crate::model::lemma_top_split(fit);
        let t = crate::model::top_tree(fit) as int;
        lemma_pow2_pos((crate::model::bit_len(fit) - 1) as nat);
        crate::model::lemma_tree_nodes_len(l.take(t));
        lemma_regions_len(l.skip(t), (fit - t) as nat);
    }
}

/// The consumed subtrees read only the first `fit` leaves.
proof fn lemma_regions_take(l1: Seq<RpoDigest>, l2: Seq<RpoDigest>, fit: nat)
    requires
        fit <= l1.len(),
        fit <= l2.len(),
        l1.take(fit as int) == l2.take(fit as int),
    ensures
        regions_nodes(l1, fit) == regions_nodes(l2, fit),
        regions_inner(l1, fit) == regions_inner(l2, fit),
    decreases fit,
{
    if fit > 0 {
        crate::model::lemma_top_split(fit);
        let t = crate::model::top_tree(fit) as int;
        lemma_pow2_pos((crate::model::bit_len(fit) - 1) as nat);
        assert(l1.take(t) =~= l2.take(t)) by {
            assert forall|i: int| 0 <= i < t implies l1.take(t)[i] == l2.take(t)[i] by {
                assert(l1.take(fit as int)[i] == l2.take(fit as int)[i]);
            }
        }
        assert(l1.skip(t).take(fit - t) =~= l2.skip(t).take(fit - t)) by {
            assert forall|i: int| 0 <= i < fit - t implies #[trigger] l1.skip(t).take(fit - t)[i]
                == l2.skip(t).take(fit - t)[i] by {
                assert(l1.skip(t).take(fit - t)[i] == l1.skip(t)[i]);
                assert(l1.skip(t)[i] == l1[t + i]);
                assert(l1[t + i] == l1.take(fit as int)[t + i]);
                assert(l2.skip(t).take(fit - t)[i] == l2.skip(t)[i]);
                assert(l2.skip(t)[i] == l2[t + i]);
                assert(l2[t + i] == l2.take(fit as int)[t + i]);
            }
        }
        lemma_regions_take(l1.skip(t), l2.skip(t), (fit - t) as nat);
    }
}

/// A value with its `k + 1` low digits clear has bit `k` clear.
proof fn lemma_aligned_bit_clear(base: nat, k: nat)
    requires
        base % pow2(k + 1) == 0,
    ensures
        !bit_set(base, k),
        base % pow2(k) == 0,
        base > 0 ==> pow2(k + 1) <= base,
{
    lemma_pow2_pos(k);
    lemma_pow2_pos(k + 1);
    lemma_pow2_unfold(k + 1);
    let q = base as int / pow2(k + 1) as int;
    vstd::arithmetic::div_mod::lemma_fundamental_div_mod(base as int, pow2(k + 1) as int);
    assert(base as int == pow2(k + 1) * q);
    assert(base as int == pow2(k) * (2 * q) + 0) by (nonlinear_arith)
        requires
            base as int == pow2(k + 1) * q,
            pow2(k + 1) == 2 * pow2(k),
    ;
    vstd::arithmetic::div_mod::lemma_fundamental_div_mod_converse(
        base as int,
        pow2(k) as int,
        2 * q,
        0,
    );
    assert(base / pow2(k) == 2 * q);
    vstd::arithmetic::div_mod::lemma_fundamental_div_mod_converse((2 * q) as int, 2, q, 0);
    if base > 0 {
        assert(q >= 1) by (nonlinear_arith)
            requires
                base as int == pow2(k + 1) * q,
                base > 0,
                pow2(k + 1) > 0,
        ;
        assert(pow2(k + 1) * 1 <= pow2(k + 1) * q) by (nonlinear_arith)
            requires
                q >= 1,
                pow2(k + 1) > 0,
        ;
    }
}

/// Appending one aligned subtree to the consumed range extends both record
/// sequences at the end.
proof fn lemma_regions_snoc(l: Seq<RpoDigest>, base: nat, k: nat)
    requires
        base % pow2(k + 1) == 0,
        base + pow2(k) <= l.len(),
    ensures
        regions_nodes(l, (base + pow2(k)) as nat) == regions_nodes(l, base)
            + crate::model::tree_nodes(l.subrange(base as int, base + pow2(k) as int)),
        regions_inner(l, (base + pow2(k)) as nat) == regions_inner(l, base) + tree_inner(
            l.subrange(base as int, base + pow2(k) as int),
        ),
        count_nodes((base + pow2(k)) as nat) == count_nodes(base) + 2 * pow2(k) - 1,
    decreases base,
{
    lemma_pow2_pos(k);
    lemma_pow2_pos(k + 1);
    lemma_aligned_bit_clear(base, k);
    crate::model::lemma_pop_count_add_top_low(base, k);
    let s = (base + pow2(k)) as nat;
    if base == 0 {
        assert(crate::model::top_tree(s) == pow2(k)) by {
            lemma_pow2_unfold(k + 1);
            crate::model::lemma_bit_len_eq(s, k);
        }
        assert(regions_nodes(l.skip(pow2(k) as int), 0) =~= Seq::<RpoDigest>::empty());
        assert(regions_inner(l.skip(pow2(k) as int), 0) =~= Seq::<InnerNodeInfo>::empty());
        assert(regions_nodes(l, 0) =~= Seq::<RpoDigest>::empty());
        assert(regions_inner(l, 0) =~= Seq::<InnerNodeInfo>::empty());
        assert(l.take(pow2(k) as int) =~= l.subrange(0, pow2(k) as int));
        assert(regions_nodes(l, s) =~= regions_nodes(l, 0) + crate::model::tree_nodes(
            l.subrange(0, pow2(k) as int),
        ));
        assert(regions_inner(l, s) =~= regions_inner(l, 0) + tree_inner(
            l.subrange(0, pow2(k) as int),
        ));
    } else {
        crate::model::lemma_bit_len_bounds(base);
        let bl = crate::model::bit_len(base);
        let t = crate::model::top_tree(base) as int;
        lemma_pow2_pos((bl - 1) as nat);
        assert(pow2(k + 1) <= base);
        assert(bl >= k + 2) by {
            if bl < k + 2 {
                crate::model::lemma_pow2_le(bl, k + 1);
                assert(base < pow2(bl));
                assert(false);
            }
        }
        // the top subtree is unchanged: no carry reaches it
        assert(crate::model::bit_len(s) == bl && crate::model::top_tree(s) == pow2(
            (bl - 1) as nat,
        )) by {
            // base is a multiple of pow2(k + 1) below pow2(bl), so it leaves
            // room for pow2(k) more
            assert(base + pow2(k + 1) <= pow2(bl)) by {
                crate::model::lemma_pow2_le(k + 1, bl);
                lemma_pow2_mod_zero(bl, k + 1);
                lemma_aligned_below(base, pow2(bl), k + 1);
            }
            lemma_pow2_unfold(k + 1);
            crate::model::lemma_bit_len_eq(s, (bl - 1) as nat);
        }
        assert((t as nat) % pow2(k + 1) == 0) by {
            lemma_pow2_mod_zero((bl - 1) as nat, k + 1);
        }
        assert(((base - t) as nat) % pow2(k + 1) == 0) by {
            lemma_mod_sub_multiple(base, t as nat, k + 1);
        }
        crate::model::lemma_top_split(base);
        lemma_regions_snoc(l.skip(t), (base - t) as nat, k);
        assert(l.skip(t).subrange(base - t, base - t + pow2(k) as int) =~= l.subrange(
            base as int,
            base + pow2(k) as int,
        ));
        assert(regions_nodes(l, s) =~= regions_nodes(l, base) + crate::model::tree_nodes(
            l.subrange(base as int, base + pow2(k) as int),
        ));
        assert(regions_inner(l, s) =~= regions_inner(l, base) + tree_inner(
            l.subrange(base as int, base + pow2(k) as int),
        ));
    }
}

/// A power of two is a multiple of every smaller power.
proof fn lemma_pow2_mod_zero(b: nat, k: nat)
    requires
        k <= b,
    ensures
        pow2(b) % pow2(k) == 0,
{
    lemma_pow2_pos(k);
    lemma_pow2_adds(k, (b - k) as nat);
    vstd::arithmetic::div_mod::lemma_fundamental_div_mod_converse(
        pow2(b) as int,
        pow2(k) as int,
        pow2((b - k) as nat) as int,
        0,
    );
}

/// A multiple of `pow2(k)` strictly below another multiple leaves a whole
/// step of room.
proof fn lemma_aligned_below(a: nat, b: nat, k: nat)
    requires
        a % pow2(k) == 0,
        b % pow2(k) == 0,
        a < b,
    ensures
        a + pow2(k) <= b,
{
    lemma_pow2_pos(k);
    let p = pow2(k) as int;
    vstd::arithmetic::div_mod::lemma_fundamental_div_mod(a as int, p);
    vstd::arithmetic::div_mod::lemma_fundamental_div_mod(b as int, p);
    let qa = a as int / p;
    let qb = b as int / p;
    assert(qa < qb) by (nonlinear_arith)
        requires
            a as int == p * qa,
            b as int == p * qb,
            a < b,
            p > 0,
    ;
    assert(p * (qa + 1) <= p * qb) by (nonlinear_arith)
        requires
            qa + 1 <= qb,
            p > 0,
    ;
    assert(a + pow2(k) == p * (qa + 1)) by (nonlinear_arith)
        requires
            a as int == p * qa,
            p == pow2(k) as int,
    ;
}

/// Subtracting a multiple of `pow2(k)` keeps divisibility by `pow2(k)`.
proof fn lemma_mod_sub_multiple(a: nat, t: nat, k: nat)
    requires
        a % pow2(k) == 0,
        t % pow2(k) == 0,
        t <= a,
    ensures
        ((a - t) as nat) % pow2(k) == 0,
{
    lemma_pow2_pos(k);
    let p = pow2(k) as int;
    vstd::arithmetic::div_mod::lemma_fundamental_div_mod(a as int, p);
    vstd::arithmetic::div_mod::lemma_fundamental_div_mod(t as int, p);
    let qa = a as int / p;
    let qt = t as int / p;
    assert(a as int - t as int == p * (qa - qt) + 0) by (nonlinear_arith)
        requires
            a as int == p * qa,
            t as int == p * qt,
    ;
    vstd::arithmetic::div_mod::lemma_fundamental_div_mod_converse((a - t) as int, p, qa - qt, 0);
}

/// Where the consumed subtrees stand in the node buffer: they are exactly
/// its leading entries, and the next aligned subtree follows them as one
/// contiguous postorder segment.
proof fn lemma_align(l: Seq<RpoDigest>, base: nat, k: nat)
    requires
        base % pow2(k) == 0,
        base + pow2(k) <= l.len(),
    ensures
        ({
            let n = count_nodes(base) + 2 * pow2(k) - 1;
            &&& 0 <= n <= crate::model::forest_nodes(l).len()
            &&& crate::model::forest_nodes(l).take(n) == regions_nodes(l, base)
                + crate::model::tree_nodes(l.subrange(base as int, base + pow2(k) as int))
        }),
    decreases l.len(),
{
    let big_f = l.len();
    let n = count_nodes(base) + 2 * pow2(k) - 1;
    lemma_pow2_pos(k);
    crate::model::lemma_count_nodes_bounds(base);
    crate::model::lemma_forest_nodes_len(l);
    crate::model::lemma_count_nodes_mono((base + pow2(k)) as nat, big_f);
    assert(n <= count_nodes(big_f)) by {
        if bit_set(base, k) {
            crate::model::lemma_pop_count_add_set_bit(base, k);
        } else {
            crate::model::lemma_pop_count_add_top_low(base, k);
        }
    }
    crate::model::lemma_bit_len_bounds(big_f);
    let t = crate::model::top_tree(big_f) as int;
    lemma_pow2_pos((crate::model::bit_len(big_f) - 1) as nat);
    let top = l.take(t);
    let rest = l.skip(t);
    crate::model::lemma_tree_nodes_len(top);
    crate::model::lemma_forest_nodes_len(rest);
    let bl = crate::model::bit_len(big_f);
    assert(k <= bl - 1) by {
        if k >= bl {
            crate::model::lemma_pow2_le(bl, k);
            assert(pow2(k) <= big_f);
            assert(big_f < pow2(bl));
            assert(false);
        }
    }
    assert(pow2(k) <= t) by {
        crate::model::lemma_pow2_le(k, (bl - 1) as nat);
    }
    assert((t as nat) % pow2(k) == 0) by {
        lemma_pow2_mod_zero((bl - 1) as nat, k);
    }
    if base >= t as nat {
        // the whole top tree is one consumed region; recurse past it
        assert(crate::model::bit_len(base) == crate::model::bit_len(big_f)) by {
            crate::model::lemma_bit_len_eq(base, (crate::model::bit_len(big_f) - 1) as nat);
        }
        assert(crate::model::top_tree(base) == t);
        crate::model::lemma_top_split(base);
        assert((base - t) as nat % pow2(k) == 0) by {
            lemma_mod_sub_multiple(base, t as nat, k);
        }
        lemma_align(rest, (base - t) as nat, k);
        crate::model::lemma_count_nodes_bounds((base - t) as nat);
        assert(count_nodes(base) == 2 * t - 1 + count_nodes((base - t) as nat));
        assert(rest.subrange(base - t, base - t + pow2(k) as int) =~= l.subrange(
            base as int,
            base + pow2(k) as int,
        ));
        let np = count_nodes((base - t) as nat) + 2 * pow2(k) - 1;
        lemma_take_concat(
            crate::model::tree_nodes(top),
            crate::model::forest_nodes(rest),
            np,
        );
        assert(crate::model::forest_nodes(l).take(n) == crate::model::tree_nodes(top)
            + crate::model::forest_nodes(rest).take(np));
        assert(crate::model::tree_nodes(top) + (regions_nodes(rest, (base - t) as nat)
            + crate::model::tree_nodes(l.subrange(base as int, base + pow2(k) as int)))
            =~= regions_nodes(l, base) + crate::model::tree_nodes(
            l.subrange(base as int, base + pow2(k) as int),
        ));
    } else {
        // the region sits inside the top tree
        assert(base + pow2(k) <= t as nat) by {
            lemma_aligned_below(base, t as nat, k);
        }
        lemma_tree_align(top, (bl - 1) as nat, base, k);
        assert(top.take(base as int) =~= l.take(base as int));
        lemma_regions_take(top, l, base);
        assert(top.subrange(base as int, base + pow2(k) as int) =~= l.subrange(
            base as int,
            base + pow2(k) as int,
        ));
        crate::model::lemma_tree_nodes_len(l.subrange(base as int, base + pow2(k) as int));
        lemma_take_concat_prefix(
            crate::model::tree_nodes(top),
            crate::model::forest_nodes(rest),
            n,
        );
        assert(crate::model::forest_nodes(l).take(n) == crate::model::tree_nodes(top).take(n));
    }
}

/// The same alignment fact inside one perfect tree.
proof fn lemma_tree_align(tl: Seq<RpoDigest>, d: nat, base: nat, k: nat)
    requires
        tl.len() == pow2(d),
        base % pow2(k) == 0,
        base + pow2(k) <= tl.len(),
    ensures
        ({
            let n = count_nodes(base) + 2 * pow2(k) - 1;
            &&& 0 <= n <= crate::model::tree_nodes(tl).len()
            &&& crate::model::tree_nodes(tl).take(n) == regions_nodes(tl, base)
                + crate::model::tree_nodes(tl.subrange(base as int, base + pow2(k) as int))
        }),
    decreases d,
{
    let n = count_nodes(base) + 2 * pow2(k) - 1;
    lemma_pow2_pos(k);
    lemma_pow2_pos(d);
    crate::model::lemma_count_nodes_bounds(base);
    crate::model::lemma_tree_nodes_len(tl);
    if base == 0 && pow2(k) == tl.len() {
        // the region is the whole tree
        assert(tl.subrange(0, pow2(k) as int) =~= tl);
        assert(crate::model::tree_nodes(tl).take(n) =~= crate::model::tree_nodes(tl));
        assert(regions_nodes(tl, 0) =~= Seq::<RpoDigest>::empty());
        assert(Seq::<RpoDigest>::empty() + crate::model::tree_nodes(tl)
            =~= crate::model::tree_nodes(tl));
    } else {
        assert(pow2(k) < tl.len());
        assert(d >= 1) by {
            if d == 0 {
                assert(pow2(0) == 1) by {
                    vstd::arithmetic::power2::lemma2_to64();
                }
            }
        }
        let h = tl.len() as int / 2;
        lemma_pow2_unfold(d);
        lemma_pow2_pos((d - 1) as nat);
        assert(h == pow2((d - 1) as nat)) by {
            vstd::arithmetic::div_mod::lemma_div_multiples_vanish(pow2((d - 1) as nat) as int, 2);
        }
        assert(tl.len() > 1);
        assert(crate::model::tree_nodes(tl) == crate::model::tree_nodes(tl.take(h))
            + crate::model::tree_nodes(tl.skip(h)) + seq![crate::model::tree_root(tl)]);
        crate::model::lemma_tree_nodes_len(tl.take(h));
        crate::model::lemma_tree_nodes_len(tl.skip(h));
        assert(k <= d - 1) by {
            if k >= d {
                crate::model::lemma_pow2_le(d, k);
                assert(false);
            }
        }
        assert(pow2(k) <= h) by {
            crate::model::lemma_pow2_le(k, (d - 1) as nat);
        }
        assert((h as nat) % pow2(k) == 0) by {
            lemma_pow2_mod_zero((d - 1) as nat, k);
        }
        if base + pow2(k) <= h as nat {
            // entirely in the left half
            lemma_tree_align(tl.take(h), (d - 1) as nat, base, k);
            assert(tl.take(h).take(base as int) =~= tl.take(base as int));
            lemma_regions_take(tl.take(h), tl, base);
            assert(tl.take(h).subrange(base as int, base + pow2(k) as int) =~= tl.subrange(
                base as int,
                base + pow2(k) as int,
            ));
            crate::model::lemma_tree_nodes_len(tl.subrange(base as int, base + pow2(k) as int));
            lemma_take_concat_prefix(
                crate::model::tree_nodes(tl.take(h)),
                crate::model::tree_nodes(tl.skip(h)) + seq![crate::model::tree_root(tl)],
                n,
            );
            assert(crate::model::tree_nodes(tl.take(h)) + (crate::model::tree_nodes(tl.skip(h))
                + seq![crate::model::tree_root(tl)]) =~= crate::model::tree_nodes(tl));
            assert(crate::model::tree_nodes(tl).take(n) == crate::model::tree_nodes(
                tl.take(h),
            ).take(n));
        } else {
            // entirely in the right half: the left half is one whole region
            assert(base >= h as nat) by {
                if base < h as nat {
                    lemma_aligned_below(base, h as nat, k);
                }
            }
            assert(crate::model::bit_len(base) == d) by {
                crate::model::lemma_bit_len_eq(base, (d - 1) as nat);
            }
            assert(crate::model::top_tree(base) == h);
            crate::model::lemma_top_split(base);
            assert((base - h) as nat % pow2(k) == 0) by {
                lemma_mod_sub_multiple(base, h as nat, k);
            }
            lemma_tree_align(tl.skip(h), (d - 1) as nat, (base - h) as nat, k);
            crate::model::lemma_count_nodes_bounds((base - h) as nat);
            assert(count_nodes(base) == 2 * h - 1 + count_nodes((base - h) as nat));
            assert(tl.skip(h).subrange(base - h, base - h + pow2(k) as int) =~= tl.subrange(
                base as int,
                base + pow2(k) as int,
            ));
            let np = count_nodes((base - h) as nat) + 2 * pow2(k) - 1;
            lemma_take_concat_prefix(
                crate::model::tree_nodes(tl.take(h)) + crate::model::tree_nodes(tl.skip(h)),
                seq![crate::model::tree_root(tl)],
                n,
            );
            assert((crate::model::tree_nodes(tl.take(h)) + crate::model::tree_nodes(tl.skip(h)))
                + seq![crate::model::tree_root(tl)] =~= crate::model::tree_nodes(tl));
            lemma_take_concat(
                crate::model::tree_nodes(tl.take(h)),
                crate::model::tree_nodes(tl.skip(h)),
                np,
            );
            assert(crate::model::tree_nodes(tl).take(n) == (crate::model::tree_nodes(tl.take(h))
                + crate::model::tree_nodes(tl.skip(h))).take(n));
            assert(crate::model::tree_nodes(tl).take(n) == crate::model::tree_nodes(tl.take(h))
                + crate::model::tree_nodes(tl.skip(h)).take(np));
            assert(crate::model::tree_nodes(tl.take(h)) + (regions_nodes(
                tl.skip(h),
                (base - h) as nat,
            ) + crate::model::tree_nodes(tl.subrange(base as int, base + pow2(k) as int)))
                =~= regions_nodes(tl, base) + crate::model::tree_nodes(
                tl.subrange(base as int, base + pow2(k) as int),
            ));
        }
    }
}

/// Once every digit of the consumed mask is a whole tree of the forest, the
/// consumed records are all the inner nodes.
proof fn lemma_regions_inner_full(l: Seq<RpoDigest>)
    ensures
        regions_inner(l, crate::model::clear_low(l.len(), 1)) == forest_inner(l),
    decreases l.len(),
{
    let big_f = l.len();
    assert(pow2(0) == 1 && pow2(1) == 2) by {
        vstd::arithmetic::power2::lemma2_to64();
    }
    crate::forest::lemma_clear_low_le(big_f, 1);
    let target = crate::model::clear_low(big_f, 1);
    assert(big_f - target == big_f % 2);
    if big_f == 0 {
    } else if big_f == 1 {
        reveal_with_fuel(crate::model::bit_len, 2);
        assert(crate::model::top_tree(1) == 1);
        assert(target == 0);
        assert(forest_inner(l) =~= tree_inner(l.take(1)) + forest_inner(l.skip(1)));
        assert(tree_inner(l.take(1)) =~= Seq::<InnerNodeInfo>::empty());
        assert(forest_inner(l) =~= Seq::<InnerNodeInfo>::empty());
    } else {
        crate::model::lemma_bit_len_bounds(big_f);
        let bl = crate::model::bit_len(big_f);
        let t = crate::model::top_tree(big_f) as int;
        lemma_pow2_pos((bl - 1) as nat);
        assert(bl >= 2) by {
            if bl == 1 {
                assert(big_f < pow2(1));
            }
        }
        assert(t % 2 == 0) by {
            lemma_pow2_mod_zero((bl - 1) as nat, 1);
        }
        assert(target >= t) by {
            assert(t <= big_f);
            if big_f % 2 == 1 {
                assert(t < big_f);
            }
        }
        assert(crate::model::bit_len(target) == bl) by {
            crate::model::lemma_bit_len_eq(target, (bl - 1) as nat);
        }
        assert(crate::model::top_tree(target) == t);
        lemma_regions_inner_full(l.skip(t));
        assert(l.skip(t).len() == big_f - t);
        assert((target - t) as nat == crate::model::clear_low((big_f - t) as nat, 1)) by {
            crate::forest::lemma_clear_low_le((big_f - t) as nat, 1);
            assert((big_f - t) as nat % 2 == big_f % 2) by {
                lemma_mod_sub_multiple_two(big_f, t as nat);
            }
        }
        assert(regions_inner(l, target) =~= forest_inner(l));
    }
}

/// Subtracting an even value keeps the parity.
proof fn lemma_mod_sub_multiple_two(a: nat, t: nat)
    requires
        t % 2 == 0,
        t <= a,
    ensures
        ((a - t) as nat) % 2 == a % 2,
{
    vstd::arithmetic::div_mod::lemma_fundamental_div_mod(a as int, 2);
    vstd::arithmetic::div_mod::lemma_fundamental_div_mod(t as int, 2);
    vstd::arithmetic::div_mod::lemma_fundamental_div_mod_converse(
        (a - t) as int,
        2,
        a as int / 2 - t as int / 2,
        a as int % 2,
    );
}

/// Parity of `f - pow2(j) + pow2(j + 1)` for a set bit `j`: even.
proof fn lemma_parity_step(f: nat, j: nat)
    requires
        bit_set(f, j),
        j >= 1 ==> f % 2 == 0,
        pow2(j) <= f,
    ensures
        ((f - pow2(j) + pow2(j + 1)) as nat) % 2 == 0,
{
    lemma_pow2_pos(j);
    lemma_pow2_unfold(j + 1);
    if j == 0 {
        lemma_bit0(f);
        assert(pow2(0) == 1) by {
            vstd::arithmetic::power2::lemma2_to64();
        }
        lemma_even_sub(f, 1);
    } else {
        lemma_pow2_unfold(j);
        lemma_even_sub2(f, j);
    }
}

/// Parity of `f - pow2(j)` for a set bit `j`: even.
proof fn lemma_parity_clear(f: nat, j: nat)
    requires
        bit_set(f, j),
        j >= 1 ==> f % 2 == 0,
        pow2(j) <= f,
    ensures
        ((f - pow2(j)) as nat) % 2 == 0,
{
    lemma_pow2_pos(j);
    if j == 0 {
        lemma_bit0(f);
        assert(pow2(0) == 1) by {
            vstd::arithmetic::power2::lemma2_to64();
        }
        lemma_even_sub(f, 1);
    } else {
        lemma_pow2_unfold(j);
        lemma_even_sub2(f, j);
    }
}

/// An odd value minus one is even.
proof fn lemma_even_sub(f: nat, one: nat)
    requires
        f % 2 == 1,
        one == 1,
    ensures
        ((f - 1) as nat) % 2 == 0,
        ((f - 1 + 2) as nat) % 2 == 0,
{
    vstd::arithmetic::div_mod::lemma_fundamental_div_mod(f as int, 2);
    vstd::arithmetic::div_mod::lemma_fundamental_div_mod_converse(
        (f - 1) as int,
        2,
        f as int / 2,
        0,
    );
    vstd::arithmetic::div_mod::lemma_fundamental_div_mod_converse(
        (f + 1) as int,
        2,
        f as int / 2 + 1,
        0,
    );
}

/// An even value stays even after subtracting or adding even powers.
proof fn lemma_even_sub2(f: nat, j: nat)
    requires
        f % 2 == 0,
        j >= 1,
        pow2(j) <= f,
    ensures
        ((f - pow2(j)) as nat) % 2 == 0,
        ((f - pow2(j) + 2 * pow2(j)) as nat) % 2 == 0,
{
    lemma_pow2_pos((j - 1) as nat);
    lemma_pow2_unfold(j);
    let h = pow2((j - 1) as nat) as int;
    vstd::arithmetic::div_mod::lemma_fundamental_div_mod(f as int, 2);
    vstd::arithmetic::div_mod::lemma_fundamental_div_mod_converse(
        (f - pow2(j)) as int,
        2,
        f as int / 2 - h,
        0,
    );
    vstd::arithmetic::div_mod::lemma_fundamental_div_mod_converse(
        (f + pow2(j)) as int,
        2,
        f as int / 2 + h,
        0,
    );
}

/// Node-count change when a pair at depth `j` merges into a left parent.
proof fn lemma_count_nodes_move_up(f: nat, j: nat)
    requires
        bit_set(f, j),
        pow2(j) <= f,
        !bit_set(((f - pow2(j)) as nat), j + 1),
    ensures
        count_nodes((f - pow2(j) + pow2(j + 1)) as nat) == count_nodes(f) + pow2(j + 1),
{
    let f2 = (f - pow2(j)) as nat;
    lemma_pow2_pos(j);
    lemma_pow2_pos(j + 1);
    lemma_pop_remove_bit(f, j);
    crate::model::lemma_pop_count_add_top_low(f2, j + 1);
    lemma_pow2_unfold(j + 1);
}

/// Node-count change when a pair at depth `j` merges into a right parent.
proof fn lemma_count_nodes_move_up2(f: nat, j: nat)
    requires
        bit_set(f, j),
        pow2(j) <= f,
    ensures
        count_nodes((f - pow2(j)) as nat) + count_nodes(pow2(j + 1)) == count_nodes(f)
            + count_nodes(pow2(j)) + 1,
{
    lemma_pow2_pos(j);
    lemma_pow2_pos(j + 1);
    lemma_pop_remove_bit(f, j);
    lemma_pop_count_pow2(j);
    lemma_pop_count_pow2(j + 1);
    lemma_pow2_unfold(j + 1);
}

/// Removing a set bit removes exactly one from the set-bit count.
proof fn lemma_pop_remove_bit(f: nat, j: nat)
    requires
        bit_set(f, j),
    ensures
        pow2(j) <= f,
        pop_count((f - pow2(j)) as nat) == pop_count(f) - 1,
        !bit_set((f - pow2(j)) as nat, j),
    decreases j,
{
    crate::model::lemma_bit_set_lt_bit_len(f, j);
    lemma_pow2_pos(j);
    if j == 0 {
        assert(pow2(0) == 1) by {
            vstd::arithmetic::power2::lemma2_to64();
        }
        lemma_bit0(f);
        vstd::arithmetic::div_mod::lemma_fundamental_div_mod(f as int, 2);
        vstd::arithmetic::div_mod::lemma_fundamental_div_mod_converse(
            (f - 1) as int,
            2,
            f as int / 2,
            0,
        );
        lemma_bit0((f - 1) as nat);
    } else {
        let fp = f / 2;
        let r = f % 2;
        lemma_pow2_unfold(j);
        lemma_pow2_pos((j - 1) as nat);
        vstd::arithmetic::div_mod::lemma_fundamental_div_mod(f as int, 2);
        assert(bit_set(fp, (j - 1) as nat)) by {
            vstd::arithmetic::div_mod::lemma_div_denominator(
                f as int,
                2,
                pow2((j - 1) as nat) as int,
            );
            lemma_pow2_adds(1, (j - 1) as nat);
            assert(pow2(1) == 2) by {
                vstd::arithmetic::power2::lemma2_to64();
            }
        }
        lemma_pop_remove_bit(fp, (j - 1) as nat);
        let m = (f - pow2(j)) as nat;
        assert(m % 2 == r && m / 2 == fp - pow2((j - 1) as nat)) by {
            vstd::arithmetic::div_mod::lemma_fundamental_div_mod_converse(
                m as int,
                2,
                fp as int - pow2((j - 1) as nat) as int,
                r as int,
            );
        }
        assert(!bit_set(m, j)) by {
            vstd::arithmetic::div_mod::lemma_div_denominator(
                m as int,
                2,
                pow2((j - 1) as nat) as int,
            );
            lemma_pow2_adds(1, (j - 1) as nat);
            assert(pow2(1) == 2) by {
                vstd::arithmetic::power2::lemma2_to64();
            }
            assert(m / pow2(j) == (m / 2) / pow2((j - 1) as nat));
        }
    }
}

} // verus!
