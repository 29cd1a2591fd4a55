//! Pure functions on the integer forest descriptor.
//!
//! The forest value is the number of leaves appended so far; each set bit
//! marks one perfect tree, the bit position giving its depth.  The functions
//! here answer which tree owns a leaf position, build the mask of the high
//! bits, and count the nodes a forest stores.
use vstd::arithmetic::div_mod::{
    lemma_div_denominator, lemma_div_multiples_vanish_fancy, lemma_fundamental_div_mod,
    lemma_fundamental_div_mod_converse,
};
use vstd::arithmetic::power2::{lemma_pow2_adds, lemma_pow2_pos, lemma_pow2_unfold, pow2};
use vstd::bits::{lemma_u64_shl_is_mul, lemma_u64_shr_is_div};
use vstd::prelude::*;

use crate::model::{bit_len, bit_set, clear_low, count_nodes, pop_count};

verus! {

/// Tree `b` of forest `f` owns the leaf position `pos`: the bit is set and
/// the position falls in the contiguous range of `pow2(b)` leaves that the
/// trees above `b` leave to it.
pub open spec fn owns_leaf(f: nat, b: nat, pos: nat) -> bool {
    &&& bit_set(f, b)
    &&& clear_low(f, b + 1) <= pos < clear_low(f, b + 1) + pow2(b)
}

/// Bit `b` of `x`, as a division: `x >> b` for `b` up to 63.
pub proof fn lemma_shr_bit(x: u64, b: u64)
    requires
        b < 64,
    ensures
        ((x >> b) & 1 == 1) == bit_set(x as nat, b as nat),
        ((x >> b) & 1 == 0) == !bit_set(x as nat, b as nat),
        (x & (1u64 << b) != 0) == bit_set(x as nat, b as nat),
{
    lemma_u64_shr_is_div(x, b);
    assert((x >> b) & 1 == (x >> b) % 2) by (bit_vector);
    assert((x >> b) % 2 == ((x >> b) as nat) % 2) by (bit_vector);
    vstd::arithmetic::div_mod::lemma_mod_bound((x >> b) as int, 2);
    assert(x & (1u64 << b) != 0 <==> (x >> b) & 1 == 1) by (bit_vector)
        requires
            b < 64,
    ;
}

/// The high-bits mask, arithmetically: `x` with its `k + 1` low digits
/// cleared.
pub proof fn lemma_clear_low_shifts(x: u64, k: u64)
    requires
        k < 64,
    ensures
        ((((x >> k) >> 1) << 1) << k) as nat == clear_low(x as nat, k as nat + 1),
        clear_low(x as nat, k as nat + 1) <= x,
{
    let q = (x >> k) >> 1;
    let p = pow2(k as nat) as int;
    let p2 = pow2(k as nat + 1) as int;
    lemma_pow2_pos(k as nat);
    lemma_pow2_pos(k as nat + 1);
    lemma_pow2_adds(k as nat, 1);
    assert(pow2(1) == 2) by {
        vstd::arithmetic::power2::lemma2_to64();
    }
    assert(p2 == p * 2);
    lemma_u64_shr_is_div(x, k);
    lemma_u64_shr_is_div(x >> k, 1);
    assert(pow2(1nat) == 2);
    lemma_div_denominator(x as int, p, 2);
    assert(q as int == x as int / p2);
    lemma_clear_low_le(x as nat, k as nat + 1);
    assert(clear_low(x as nat, k as nat + 1) == q as int * p2);
    assert(q as int * p2 <= x as int);
    assert(q * 2 * p == q as int * p2) by (nonlinear_arith)
        requires
            p2 == p * 2,
    ;
    assert(q * 2 <= q * 2 * p) by (nonlinear_arith)
        requires
            p >= 1,
            q >= 0,
    ;
    lemma_u64_shl_is_mul(q, 1);
    assert((q << 1) as int == q * 2);
    lemma_u64_shl_is_mul(q << 1, k);
    assert(((q << 1) << k) as int == q * 2 * p);
}

/// Clearing low digits never increases the value; what is cleared is the
/// remainder modulo the power of two.
pub proof fn lemma_clear_low_le(x: nat, k: nat)
    ensures
        clear_low(x, k) <= x,
        x - clear_low(x, k) == x % pow2(k),
{
    let p = pow2(k) as int;
    lemma_pow2_pos(k);
    lemma_fundamental_div_mod(x as int, p);
    assert(x as int == p * (x as int / p) + x as int % p);
    vstd::arithmetic::mul::lemma_mul_is_commutative(p, x as int / p);
    assert(clear_low(x, k) == (x as int / p) * p);
    vstd::arithmetic::div_mod::lemma_mod_bound(x as int, p);
}

/// Clearing one more digit splits off exactly the value of that digit.
pub proof fn lemma_clear_low_step(x: nat, k: nat)
    ensures
        clear_low(x, k) == clear_low(x, k + 1) + if bit_set(x, k) {
            pow2(k) as int
        } else {
            0
        },
{
    let p = pow2(k) as int;
    let p2 = pow2(k + 1) as int;
    lemma_pow2_pos(k);
    lemma_pow2_pos(k + 1);
    lemma_pow2_adds(k, 1);
    assert(pow2(1) == 2) by {
        vstd::arithmetic::power2::lemma2_to64();
    }
    let q = x as int / p;
    lemma_div_denominator(x as int, p, 2);
    assert(x as int / p2 == q / 2);
    lemma_fundamental_div_mod(q, 2);
    assert(q == 2 * (q / 2) + q % 2);
    assert(clear_low(x, k) == q * p);
    assert(q * p == (2 * (q / 2) + q % 2) * p);
    assert((2 * (q / 2) + q % 2) * p == (q / 2) * (2 * p) + (q % 2) * p) by (nonlinear_arith);
    assert(clear_low(x, k + 1) == (q / 2) * p2);
    assert((q / 2) * (2 * p) == (q / 2) * p2);
    if bit_set(x, k) {
        assert(q % 2 == 1);
    } else {
        assert(q % 2 == 0);
        assert((q % 2) * p == 0);
    }
}

/// Clearing more digits gives a smaller or equal value.
pub proof fn lemma_clear_low_mono(x: nat, k1: nat, k2: nat)
    requires
        k1 <= k2,
    ensures
        clear_low(x, k1) >= clear_low(x, k2),
    decreases k2 - k1,
{
    if k1 < k2 {
        lemma_clear_low_step(x, k1);
        lemma_clear_low_mono(x, k1 + 1, k2);
    }
}

/// Two distinct trees of one forest own disjoint leaf ranges, so the owner of
/// a position is unique.
pub proof fn lemma_owner_unique(f: nat, pos: nat, b1: nat, b2: nat)
    requires
        owns_leaf(f, b1, pos),
        owns_leaf(f, b2, pos),
    ensures
        b1 == b2,
{
    if b1 < b2 {
        lemma_owner_ranges_ordered(f, b1, b2);
    } else if b2 < b1 {
        lemma_owner_ranges_ordered(f, b2, b1);
    }
}

/// For `b1 < b2`, the range of tree `b1` starts at or after the end of the
/// range of tree `b2`.
proof fn lemma_owner_ranges_ordered(f: nat, b1: nat, b2: nat)
    requires
        b1 < b2,
        bit_set(f, b2),
    ensures
        clear_low(f, b1 + 1) >= clear_low(f, b2 + 1) + pow2(b2),
{
    lemma_clear_low_mono(f, b1 + 1, b2);
    lemma_clear_low_step(f, b2);
}

/// The last position always belongs to the smallest, most recent tree: the
/// lowest set bit of the forest.
pub proof fn lemma_last_position_owner(f: nat)
    requires
        f > 0,
    ensures
        owns_leaf(f, crate::model::low_bit(f), (f - 1) as nat),
        crate::model::owner_bit(f, (f - 1) as nat) == crate::model::low_bit(f),
{
    let lb = crate::model::low_bit(f);
    crate::model::lemma_low_bit_facts(f);
    lemma_pow2_pos(lb);
    lemma_pow2_pos(lb + 1);
    lemma_pow2_unfold(lb + 1);
    // the low remainder of f is exactly pow2(lb), so the lowest tree owns
    // the last pow2(lb) positions
    assert(f % pow2(lb + 1) == pow2(lb)) by {
        let q = f / pow2(lb);
        lemma_fundamental_div_mod(f as int, pow2(lb) as int);
        lemma_fundamental_div_mod(q as int, 2);
        assert(q % 2 == 1);
        assert(f as int == pow2(lb + 1) * (q as int / 2) + pow2(lb)) by (nonlinear_arith)
            requires
                f as int == pow2(lb) * (q as int),
                q as int == 2 * (q as int / 2) + 1,
                pow2(lb + 1) == 2 * pow2(lb),
        ;
        lemma_fundamental_div_mod_converse(
            f as int,
            pow2(lb + 1) as int,
            q as int / 2,
            pow2(lb) as int,
        );
    }
    lemma_clear_low_le(f, lb + 1);
    assert(clear_low(f, lb + 1) == f - pow2(lb));
    assert(owns_leaf(f, lb, (f - 1) as nat));
    crate::model::lemma_owner_exists(f, (f - 1) as nat);
    lemma_owner_unique(f, (f - 1) as nat, crate::model::owner_bit(f, (f - 1) as nat), lb);
}

/// One more than the largest machine word is the corresponding power of two.
pub proof fn lemma_usize_max_pow2()
    ensures
        usize::MAX + 1 == pow2(usize::BITS as nat),
        u64::MAX + 1 == pow2(64),
{
    vstd::arithmetic::power2::lemma2_to64();
    vstd::arithmetic::power2::lemma2_to64_rest();
}

/// Values below `pow2(k)` have at most `k` binary digits.
pub proof fn lemma_bit_len_le(n: nat, k: nat)
    requires
        n < pow2(k),
    ensures
        bit_len(n) <= k,
    decreases n,
{
    if n > 0 {
        assert(k >= 1) by {
            if k == 0 {
                assert(pow2(0) == 1) by {
                    vstd::arithmetic::power2::lemma2_to64();
                }
            }
        }
        lemma_pow2_unfold(k);
        lemma_fundamental_div_mod(n as int, 2);
        lemma_bit_len_le(n / 2, (k - 1) as nat);
    }
}

/// The number of set bits of a usize, against the model's `pop_count`.
pub fn count_ones(n: usize) -> (r: u32)
    ensures
        r == pop_count(n as nat),
{
    proof {
        lemma_usize_max_pow2();
        lemma_bit_len_le(n as nat, usize::BITS as nat);
        crate::model::lemma_pop_count_le_bit_len(n as nat);
    }
    let mut x: usize = n;
    let mut c: u32 = 0;
    while x > 0
        invariant
            c + pop_count(x as nat) == pop_count(n as nat),
            pop_count(n as nat) <= usize::BITS,
        decreases x,
    {
        c = c + (x % 2) as u32;
        proof {
            crate::model::lemma_pop_count_le_bit_len(x as nat);
        }
        x = x / 2;
    }
    c
}

/// The index of the highest set bit of a positive number.
pub fn highest_bit(n: usize) -> (r: u32)
    requires
        n > 0,
    ensures
        r as nat == bit_len(n as nat) - 1,
        r < usize::BITS,
        bit_set(n as nat, r as nat),
{
    proof {
        lemma_usize_max_pow2();
        lemma_bit_len_le(n as nat, usize::BITS as nat);
    }
    let mut x: usize = n;
    let mut r: u32 = 0;
    while x > 1
        invariant
            x > 0,
            bit_len(n as nat) == bit_len(x as nat) + r,
            bit_len(n as nat) <= usize::BITS,
        decreases x,
    {
        x = x / 2;
        r = r + 1;
    }
    proof {
        reveal_with_fuel(bit_len, 2);
        assert(bit_len(x as nat) == 1);
        lemma_highest_bit_set(n as nat, r as nat);
    }
    r
}

/// Bit `bit_len(n) - 1` of a positive `n` is set.
pub proof fn lemma_highest_bit_set(n: nat, b: nat)
    requires
        n > 0,
        b == bit_len(n) - 1,
    ensures
        bit_set(n, b),
        pow2(b) <= n,
    decreases n,
{
    crate::model::lemma_bit_len_bounds(n);
    if n == 1 {
        reveal_with_fuel(bit_len, 2);
        assert(pow2(0) == 1) by {
            vstd::arithmetic::power2::lemma2_to64();
        }
        assert(n / pow2(0) == 1);
    } else {
        assert(n / 2 >= 1);
        assert(bit_len(n) == 1 + bit_len(n / 2));
        assert(bit_len(n / 2) >= 1) by {
            crate::model::lemma_bit_len_bounds(n / 2);
        }
        assert(b >= 1);
        lemma_highest_bit_set(n / 2, (b - 1) as nat);
        lemma_pow2_unfold(b);
        lemma_pow2_pos((b - 1) as nat);
        assert(n / pow2(b) == (n / 2) / pow2((b - 1) as nat)) by {
            lemma_fundamental_div_mod(n as int, 2);
            lemma_div_denominator(n as int, 2, pow2((b - 1) as nat) as int);
        }
    }
}

/// The all-ones word, arithmetically.
proof fn lemma_all_ones_value()
    ensures
        !0usize == usize::MAX,
{
    let h: usize = 1usize << (usize::BITS - 1) as u32;
    assert(!0usize == ((h - 1) + h) as usize) by (bit_vector)
        requires
            h == 1usize << (usize::BITS - 1) as u32,
    ;
    assert(h as nat == pow2((usize::BITS - 1) as nat)) by {
        vstd::bits::lemma_usize_pow2_no_overflow((usize::BITS - 1) as nat);
        vstd::bits::lemma_usize_shl_is_mul(1usize, (usize::BITS - 1) as usize);
    }
    lemma_usize_max_pow2();
    lemma_pow2_unfold(usize::BITS as nat);
    assert((h - 1) + h == usize::MAX);
}

/// Flipping a set bit off subtracts exactly its power of two.
pub proof fn lemma_clear_bit(x: usize, m: usize, b: nat)
    requires
        m as nat == pow2(b),
        b < 64,
        bit_set(x as nat, b),
    ensures
        (x ^ m) as nat == x - pow2(b),
{
    let xv = x as u64;
    let mv = m as u64;
    assert((x ^ m) as u64 == xv ^ mv);
    assert(mv == 1u64 << (b as u64)) by {
        vstd::bits::lemma_u64_pow2_no_overflow(b);
        lemma_u64_shl_is_mul(1u64, b as u64);
    }
    let bu = b as u64;
    lemma_shr_bit(xv, bu);
    assert((xv ^ mv) + mv == xv) by (bit_vector)
        requires
            mv == 1u64 << bu,
            bu < 64,
            (xv >> bu) & 1 == 1,
    ;
}

/// Flipping a clear bit on adds exactly its power of two, whether by or or
/// by xor.
pub proof fn lemma_or_bit(x: usize, m: usize, b: nat)
    requires
        m as nat == pow2(b),
        b < 64,
        !bit_set(x as nat, b),
    ensures
        (x | m) as nat == x + m,
        (x ^ m) as nat == x + m,
{
    let xv = x as u64;
    let mv = m as u64;
    let bu = b as u64;
    assert((x | m) as u64 == xv | mv);
    assert((x ^ m) as u64 == xv ^ mv);
    assert(mv == 1u64 << bu) by {
        vstd::bits::lemma_u64_pow2_no_overflow(b);
        lemma_u64_shl_is_mul(1u64, bu);
    }
    lemma_shr_bit(xv, bu);
    assert((xv | mv) == xv + mv && (xv ^ mv) == xv + mv) by (bit_vector)
        requires
            mv == 1u64 << bu,
            bu < 64,
            (xv >> bu) & 1 == 0,
    ;
}

/// Testing one bit with a power-of-two mask, on machine words.
pub proof fn lemma_bit_test_usize(x: usize, m: usize, b: nat)
    requires
        m as nat == pow2(b),
        b < 64,
    ensures
        (x & m != 0) == bit_set(x as nat, b),
{
    let xv = x as u64;
    let mv = m as u64;
    assert((x & m) as u64 == xv & mv);
    assert(mv == 1u64 << (b as u64)) by {
        vstd::bits::lemma_u64_pow2_no_overflow(b);
        lemma_u64_shl_is_mul(1u64, b as u64);
    }
    lemma_shr_bit(xv, b as u64);
}

// EXECUTABLE FOREST FUNCTIONS
// ================================================================================================
/// Returns a bitmask with all bits at or above `bit` set, and zero when `bit`
/// exceeds the word width: a saturating, not wrapping, shift.
pub fn high_bitmask(bit: u32) -> (r: usize)
    ensures
        bit >= usize::BITS ==> r == 0,
        bit < usize::BITS ==> r as nat == pow2(usize::BITS as nat) - pow2(bit as nat),
        forall|x: usize| #[trigger] (x & r) as nat == clear_low(x as nat, bit as nat),
{
    if bit > usize::BITS - 1 {
        proof {
            lemma_usize_max_pow2();
            assert forall|x: usize| #[trigger] (x & 0usize) as nat == clear_low(
                x as nat,
                bit as nat,
            ) by {
                assert(x & 0usize == 0usize) by (bit_vector);
                vstd::arithmetic::power2::lemma_pow2_strictly_increases(
                    usize::BITS as nat,
                    bit as nat + 1,
                );
                if (bit as nat) != usize::BITS as nat {
                    vstd::arithmetic::power2::lemma_pow2_strictly_increases(
                        usize::BITS as nat,
                        bit as nat,
                    );
                }
                lemma_pow2_pos(bit as nat);
                vstd::arithmetic::div_mod::lemma_basic_div(x as int, pow2(bit as nat) as int);
            }
        }
        0
    } else {
        proof {
            lemma_high_bitmask_value(bit);
        }
        usize::MAX << bit
    }
}

/// The value of the unsaturated high-bit mask, and its effect under `&`.
proof fn lemma_high_bitmask_value(bit: u32)
    requires
        bit < usize::BITS,
    ensures
        (usize::MAX << bit) as nat == pow2(usize::BITS as nat) - pow2(bit as nat),
        forall|x: usize| #[trigger] (x & (usize::MAX << bit)) as nat == clear_low(
            x as nat,
            bit as nat,
        ),
{
    lemma_usize_max_pow2();
    lemma_all_ones_value();
    assert((1usize << bit) as nat == pow2(bit as nat)) by {
        vstd::bits::lemma_usize_pow2_no_overflow(bit as nat);
        vstd::bits::lemma_usize_shl_is_mul(1usize, bit as usize);
    }
    assert((!0usize << bit) + ((1usize << bit) - 1) == !0usize) by (bit_vector)
        requires
            bit < usize::BITS,
    ;
    assert((usize::MAX << bit) as nat == pow2(usize::BITS as nat) - pow2(bit as nat));
    assert forall|x: usize| #[trigger] (x & (usize::MAX << bit)) as nat == clear_low(
        x as nat,
        bit as nat,
    ) by {
        assert(x & (!0usize << bit) == ((x >> bit) << bit)) by (bit_vector)
            requires
                bit < usize::BITS,
        ;
        vstd::bits::lemma_usize_shr_is_div(x, bit as usize);
        assert((x >> bit) as nat == x as nat / pow2(bit as nat));
        lemma_clear_low_le(x as nat, bit as nat);
        vstd::bits::lemma_usize_shl_is_mul(x >> bit, bit as usize);
    }
}

/// Returns the total node count of the forest `forest`.
///
/// The leaf count must not exceed `usize::MAX / 2`, else the node count
/// itself would overflow the word.
pub fn nodes_in_forest(forest: usize) -> (r: usize)
    requires
        forest <= usize::MAX / 2,
    ensures
        r == count_nodes(forest as nat),
{
    proof {
        crate::model::lemma_pop_count_le_f(forest as nat);
    }
    let tree_count = count_ones(forest) as usize;
    forest * 2 - tree_count
}

/// Given a leaf position and the forest, returns the bit index of the tree
/// owning the position, or `None` when the position is at or beyond the leaf
/// count.
///
/// The owner is the tree whose contiguous leaf range contains the position:
/// ranges follow the set bits from the highest down, each tree of depth `b`
/// taking the next `pow2(b)` positions.
pub fn leaf_to_corresponding_tree(pos: usize, forest: usize) -> (r: Option<u32>)
    ensures
        r is Some <==> pos < forest,
        pos < forest ==> {
            let b = r->Some_0;
            &&& b < usize::BITS
            &&& owns_leaf(forest as nat, b as nat, pos as nat)
        },
{
    if pos >= forest {
        None
    } else {
        let before = forest & pos;
        let after = forest ^ before;
        proof {
            lemma_divergence_positive(forest as u64, pos as u64);
            assert((forest ^ before) as u64 == (forest as u64) ^ (before as u64));
            assert((forest & pos) as u64 == (forest as u64) & (pos as u64));
        }
        let tree = highest_bit(after);
        proof {
            lemma_highest_bit_shr(after as u64, tree as u64);
            lemma_owner_from_divergence(forest as u64, pos as u64, tree as u64);
        }
        Some(tree)
    }
}

/// A position below the forest value always diverges from it in some bit that
/// the forest holds and the position lacks.
proof fn lemma_divergence_positive(f: u64, pos: u64)
    requires
        pos < f,
    ensures
        (f ^ (f & pos)) != 0,
{
    assert(f ^ (f & pos) != 0) by (bit_vector)
        requires
            pos < f,
    ;
}

/// The highest set bit, restated as a shift: everything above it is zero and
/// the bit itself is one.
proof fn lemma_highest_bit_shr(x: u64, b: u64)
    requires
        x > 0,
        b < 64,
        b == bit_len(x as nat) - 1,
    ensures
        (x >> b) == 1,
{
    crate::model::lemma_bit_len_bounds(x as nat);
    lemma_u64_shr_is_div(x, b);
    lemma_pow2_pos(b as nat);
    lemma_pow2_unfold(b as nat + 1);
    lemma_pow2_adds(b as nat, 1);
    assert(x as nat / pow2(b as nat) == 1) by {
        let p = pow2(b as nat) as int;
        assert(p <= x < 2 * p);
        lemma_fundamental_div_mod(x as int, p);
        vstd::arithmetic::div_mod::lemma_mod_bound(x as int, p);
        assert(x as int / p >= 1) by (nonlinear_arith)
            requires
                p >= 1,
                x as int >= p,
                x as int == p * (x as int / p) + x as int % p,
                0 <= x as int % p < p,
        ;
        assert(x as int / p < 2) by (nonlinear_arith)
            requires
                p >= 1,
                (x as int) < 2 * p,
                x as int == p * (x as int / p) + x as int % p,
                0 <= x as int % p < p,
        ;
    }
}

/// The highest bit where the forest diverges from (exceeds) the position is
/// the owner of the position.
proof fn lemma_owner_from_divergence(f: u64, pos: u64, b: u64)
    requires
        pos < f,
        b < 64,
        ((f ^ (f & pos)) >> b) == 1,
    ensures
        owns_leaf(f as nat, b as nat, pos as nat),
{
    assert((f >> b) & 1 == 1) by (bit_vector)
        requires
            pos < f,
            b < 64,
            ((f ^ (f & pos)) >> b) == 1,
    ;
    assert(((((f >> b) >> 1) << 1) << b) <= pos) by (bit_vector)
        requires
            pos < f,
            b < 64,
            ((f ^ (f & pos)) >> b) == 1,
    ;
    assert(pos < ((((f >> b) >> 1) << 1) << b) + (1u64 << b)) by (bit_vector)
        requires
            pos < f,
            b < 64,
            ((f ^ (f & pos)) >> b) == 1,
    ;
    lemma_shr_bit(f, b);
    lemma_clear_low_shifts(f, b);
    assert((1u64 << b) as nat == pow2(b as nat)) by {
        vstd::bits::lemma_u64_pow2_no_overflow(b as nat);
        lemma_u64_shl_is_mul(1u64, b);
    }
}

} // verus!
