//! The mathematical model of the accumulator.
//!
//! A forest value `f` (the number of leaves appended so far) decomposes by its
//! binary representation: each set bit `b` is one perfect binary tree holding
//! `pow2(b)` consecutive leaves, largest tree first.  The node buffer is the
//! concatenation of the postorder node sequences of those trees.  Everything
//! the executable code promises is stated against the functions defined here.
use vstd::arithmetic::div_mod::{
    lemma_div_denominator,
    lemma_basic_div, lemma_div_by_multiple, lemma_div_multiples_vanish,
    lemma_div_multiples_vanish_fancy, lemma_fundamental_div_mod,
    lemma_fundamental_div_mod_converse, lemma_mod_multiples_vanish, lemma_small_mod,
};
use vstd::arithmetic::power2::{
    lemma_pow2_adds, lemma_pow2_pos, lemma_pow2_strictly_increases, lemma_pow2_unfold, pow2,
};
use vstd::prelude::*;

use crate::digest::RpoDigest;
use crate::hasher::merge_spec;

verus! {

// BIT ARITHMETIC
// ================================================================================================
/// Number of binary digits of `n`: the position just above the highest set
/// bit, or zero for zero.
pub open spec fn bit_len(n: nat) -> nat
    decreases n,
{
    if n == 0 {
        0
    } else {
        1 + bit_len(n / 2)
    }
}

/// Number of set bits in the binary representation of `n`.
pub open spec fn pop_count(n: nat) -> nat
    decreases n,
{
    if n == 0 {
        0
    } else {
        n % 2 + pop_count(n / 2)
    }
}

/// Number of consecutive set bits at the bottom of `n`.
pub open spec fn trailing_ones(n: nat) -> nat
    decreases n,
{
    if n % 2 == 0 {
        0
    } else {
        1 + trailing_ones(n / 2)
    }
}

/// Whether bit `b` of `n` is set.
pub open spec fn bit_set(n: nat, b: nat) -> bool {
    (n / pow2(b)) % 2 == 1
}

/// `n` with its `k` lowest binary digits cleared.
pub open spec fn clear_low(n: nat, k: nat) -> nat {
    (n / pow2(k)) * pow2(k)
}

/// Number of leaves held by the largest tree of a forest of `n` leaves.
pub open spec fn top_tree(n: nat) -> nat {
    pow2((bit_len(n) - 1) as nat)
}

/// Total node count of a forest of `f` leaves: every tree with `pow2(b)`
/// leaves contributes `2 * pow2(b) - 1` nodes.
pub open spec fn count_nodes(f: nat) -> int {
    2 * f - pop_count(f)
}

/// The highest set bit of a positive number brackets it between two powers.
pub proof fn lemma_bit_len_bounds(n: nat)
    requires
        n > 0,
    ensures
        bit_len(n) >= 1,
        pow2((bit_len(n) - 1) as nat) <= n < pow2(bit_len(n)),
    decreases n,
{
    if n == 1 {
        reveal_with_fuel(bit_len, 2);
        assert(pow2(0) == 1 && pow2(1) == 2) by {
            vstd::arithmetic::power2::lemma2_to64();
        }
    } else {
        lemma_bit_len_bounds(n / 2);
        assert(n / 2 >= 1);
        assert(bit_len(n) == 1 + bit_len(n / 2));
        lemma_fundamental_div_mod(n as int, 2);
        lemma_pow2_unfold(bit_len(n));
        assert(pow2(bit_len(n)) == 2 * pow2(bit_len(n / 2)));
        lemma_pow2_unfold(bit_len(n / 2));
        assert(pow2((bit_len(n) - 1) as nat) == pow2(bit_len(n / 2)));
        assert(pow2(bit_len(n / 2)) == 2 * pow2((bit_len(n / 2) - 1) as nat));
        assert(n >= 2 * (n / 2));
        assert(n <= 2 * (n / 2) + 1);
        assert(pow2((bit_len(n) - 1) as nat) <= n);
        assert(n < pow2(bit_len(n)));
    }
}

/// The number of set bits never exceeds the number of digits.
pub proof fn lemma_pop_count_le_bit_len(n: nat)
    ensures
        pop_count(n) <= bit_len(n),
        n > 0 ==> pop_count(n) >= 1,
    decreases n,
{
    if n > 0 {
        lemma_pop_count_le_bit_len(n / 2);
    }
}

/// Node counts are monotone in the leaf count and bounded by twice of it.
pub proof fn lemma_count_nodes_bounds(f: nat)
    ensures
        f <= count_nodes(f) <= 2 * f,
        f > 0 ==> count_nodes(f) >= 1,
    decreases f,
{
    lemma_pop_count_le_bit_len(f);
    lemma_pop_count_le_f(f);
}

/// `pop_count(f) <= f`.
pub proof fn lemma_pop_count_le_f(f: nat)
    ensures
        pop_count(f) <= f,
        f > 0 ==> pop_count(f) >= 1,
    decreases f,
{
    if f > 0 {
        lemma_pop_count_le_f(f / 2);
    }
}

/// Removing the largest power of two removes exactly one set bit, the
/// highest, and leaves the lower digits unchanged.
pub proof fn lemma_top_split(n: nat)
    requires
        n > 0,
    ensures
        top_tree(n) <= n,
        pop_count(n) == 1 + pop_count((n - top_tree(n)) as nat),
        bit_len((n - top_tree(n)) as nat) < bit_len(n),
    decreases n,
{
    lemma_bit_len_bounds(n);
    if n == 1 {
        reveal_with_fuel(pop_count, 3);
        reveal_with_fuel(bit_len, 2);
        assert(pow2(0) == 1) by {
            vstd::arithmetic::power2::lemma2_to64();
        }
        assert(pop_count(1nat) == 1);
        assert(pop_count(0nat) == 0);
    } else {
        let k = (bit_len(n) - 1) as nat;
        assert(n / 2 >= 1);
        assert(bit_len(n) == 1 + bit_len(n / 2));
        assert(bit_len(n / 2) >= 1);
        assert(k >= 1);
        lemma_pow2_unfold(k);
        // top_tree(n) == 2 * top_tree(n / 2) because bit_len(n) == 1 + bit_len(n / 2)
        let m = (n - pow2(k)) as nat;
        lemma_top_split(n / 2);
        assert(m / 2 == n / 2 - pow2((k - 1) as nat)) by {
            lemma_pow2_unfold(k);
            assert(m == n - 2 * pow2((k - 1) as nat));
            assert(m / 2 == (n - 2 * pow2((k - 1) as nat)) as int / 2);
            lemma_div_multiples_vanish_general(n as int, pow2((k - 1) as nat) as int);
        }
        assert(m % 2 == n % 2) by {
            lemma_fundamental_div_mod(m as int, 2);
            lemma_fundamental_div_mod(n as int, 2);
        }
        assert(top_tree(n / 2) == pow2((k - 1) as nat));
        assert(m / 2 == n / 2 - top_tree(n / 2));
        if m == 0 {
            assert(n % 2 == 0);
            assert(pop_count(n) == pop_count(n / 2));
            assert(pop_count((n / 2 - top_tree(n / 2)) as nat) == 0);
            assert(pop_count(n) == 1);
            assert(bit_len(0nat) == 0);
        } else {
            assert(pop_count(m) == m % 2 + pop_count(m / 2));
            assert(pop_count(n) == n % 2 + pop_count(n / 2));
            assert(pop_count(n / 2) == 1 + pop_count((n / 2 - top_tree(n / 2)) as nat));
            assert(pop_count(n) == 1 + pop_count(m));
            assert(bit_len(m) == 1 + bit_len(m / 2));
            assert(bit_len((n / 2 - top_tree(n / 2)) as nat) < bit_len(n / 2));
            assert(bit_len(m) < bit_len(n));
        }
    }
}

// TREES AND THE NODE BUFFER
// ================================================================================================
/// Root digest of the perfect binary tree over `l`: the single leaf, or the
/// merge of the roots of the two halves.
pub open spec fn tree_root(l: Seq<RpoDigest>) -> RpoDigest
    decreases l.len(),
{
    if l.len() <= 1 {
        l.first()
    } else {
        let h = l.len() as int / 2;
        merge_spec(tree_root(l.take(h)), tree_root(l.skip(h)))
    }
}

/// Postorder node sequence of the perfect binary tree over `l`: both halves,
/// children before their parent, the root last.
pub open spec fn tree_nodes(l: Seq<RpoDigest>) -> Seq<RpoDigest>
    decreases l.len(),
{
    if l.len() <= 1 {
        l
    } else {
        let h = l.len() as int / 2;
        tree_nodes(l.take(h)) + tree_nodes(l.skip(h)) + seq![tree_root(l)]
    }
}

/// The whole node buffer for the leaf sequence `l`: the postorder nodes of
/// every tree of the forest, largest tree first.
pub open spec fn forest_nodes(l: Seq<RpoDigest>) -> Seq<RpoDigest>
    decreases l.len(),
    via forest_nodes_decreases
{
    if l.len() == 0 {
        Seq::empty()
    } else {
        let t = top_tree(l.len()) as int;
        tree_nodes(l.take(t)) + forest_nodes(l.skip(t))
    }
}

#[via_fn]
proof fn forest_nodes_decreases(l: Seq<RpoDigest>) {
    if l.len() > 0 {
        lemma_bit_len_bounds(l.len());
        lemma_pow2_pos((bit_len(l.len()) - 1) as nat);
    }
}

/// The current peaks for the leaf sequence `l`: the root of every tree of the
/// forest, largest tree first.
pub open spec fn peaks_of(l: Seq<RpoDigest>) -> Seq<RpoDigest>
    decreases l.len(),
    via peaks_of_decreases
{
    if l.len() == 0 {
        Seq::empty()
    } else {
        let t = top_tree(l.len()) as int;
        seq![tree_root(l.take(t))] + peaks_of(l.skip(t))
    }
}

#[via_fn]
proof fn peaks_of_decreases(l: Seq<RpoDigest>) {
    if l.len() > 0 {
        lemma_bit_len_bounds(l.len());
        lemma_pow2_pos((bit_len(l.len()) - 1) as nat);
    }
}

/// A perfect tree over `n` leaves stores `2n - 1` nodes.
pub proof fn lemma_tree_nodes_len(l: Seq<RpoDigest>)
    ensures
        l.len() == 0 ==> tree_nodes(l).len() == 0,
        l.len() > 0 ==> tree_nodes(l).len() == 2 * l.len() - 1,
    decreases l.len(),
{
    if l.len() > 1 {
        let h = l.len() as int / 2;
        lemma_tree_nodes_len(l.take(h));
        lemma_tree_nodes_len(l.skip(h));
    }
}

/// The root stands last in the postorder node sequence.
pub proof fn lemma_tree_nodes_last(l: Seq<RpoDigest>)
    requires
        l.len() > 0,
    ensures
        tree_nodes(l).len() > 0,
        tree_nodes(l).last() == tree_root(l),
{
    lemma_tree_nodes_len(l);
}

/// The node buffer holds `count_nodes(f)` entries for `f` leaves.
pub proof fn lemma_forest_nodes_len(l: Seq<RpoDigest>)
    ensures
        forest_nodes(l).len() == count_nodes(l.len()),
    decreases l.len(),
{
    if l.len() > 0 {
        let t = top_tree(l.len()) as int;
        lemma_top_split(l.len());
        lemma_bit_len_bounds(l.len());
        lemma_pow2_pos((bit_len(l.len()) - 1) as nat);
        lemma_tree_nodes_len(l.take(t));
        lemma_forest_nodes_len(l.skip(t));
    }
}

/// One peak per set bit of the leaf count.
pub proof fn lemma_peaks_len(l: Seq<RpoDigest>)
    ensures
        peaks_of(l).len() == pop_count(l.len()),
    decreases l.len(),
{
    if l.len() > 0 {
        let t = top_tree(l.len()) as int;
        lemma_top_split(l.len());
        lemma_bit_len_bounds(l.len());
        lemma_pow2_pos((bit_len(l.len()) - 1) as nat);
        lemma_peaks_len(l.skip(t));
    }
}

// DIVISION HELPERS
// ================================================================================================
/// Subtracting a multiple of the divisor shifts the quotient by that much.
pub proof fn lemma_div_sub_multiple(x: nat, c: nat, p: nat)
    requires
        p > 0,
        c * p <= x,
    ensures
        ((x - c * p) as nat) / p == x / p - c,
        c <= x / p,
    decreases c,
{
    let xi = x as int;
    let pi = p as int;
    let ci = c as int;
    lemma_fundamental_div_mod(xi, pi);
    vstd::arithmetic::div_mod::lemma_mod_bound(xi, pi);
    assert(xi - ci * pi == pi * (xi / pi - ci) + (xi % pi)) by (nonlinear_arith)
        requires
            xi == pi * (xi / pi) + xi % pi,
    ;
    assert(ci <= xi / pi) by (nonlinear_arith)
        requires
            pi > 0,
            ci * pi <= xi,
            xi == pi * (xi / pi) + xi % pi,
            0 <= xi % pi < pi,
    ;
    vstd::arithmetic::mul::lemma_mul_is_commutative(pi, xi / pi - ci);
    lemma_div_multiples_vanish_fancy(xi / pi - ci, xi % pi, pi);
}

/// A value below `c * p` has quotient below `c`.
pub proof fn lemma_div_lt(x: nat, c: nat, p: nat)
    requires
        p > 0,
        x < c * p,
    ensures
        x / p < c,
{
    let xi = x as int;
    let pi = p as int;
    let ci = c as int;
    lemma_fundamental_div_mod(xi, pi);
    vstd::arithmetic::div_mod::lemma_mod_bound(xi, pi);
    assert(xi / pi < ci) by (nonlinear_arith)
        requires
            pi > 0,
            xi < ci * pi,
            xi == pi * (xi / pi) + xi % pi,
            0 <= xi % pi,
    ;
}

// BIT DECOMPOSITION LEMMAS
// ================================================================================================
/// A set bit puts at least its own power of two into the value, so the bit
/// index stays below the digit count.
pub proof fn lemma_bit_set_lt_bit_len(f: nat, b: nat)
    requires
        bit_set(f, b),
    ensures
        pow2(b) <= f,
        b + 1 <= bit_len(f),
{
    lemma_pow2_pos(b);
    assert(f / pow2(b) >= 1);
    assert(pow2(b) <= f) by {
        lemma_fundamental_div_mod(f as int, pow2(b) as int);
        vstd::arithmetic::div_mod::lemma_mod_bound(f as int, pow2(b) as int);
        assert(pow2(b) as int * 1 <= pow2(b) as int * (f as int / pow2(b) as int))
            by (nonlinear_arith)
            requires
                pow2(b) as int > 0,
                1 <= f as int / pow2(b) as int,
        ;
    }
    lemma_bit_len_bounds(f);
    if bit_len(f) < b + 1 {
        lemma_pow2_le(bit_len(f), b);
        assert(false);
    }
}

/// Power monotonicity, non-strict.
pub proof fn lemma_pow2_le(e1: nat, e2: nat)
    requires
        e1 <= e2,
    ensures
        pow2(e1) <= pow2(e2),
{
    if e1 < e2 {
        lemma_pow2_strictly_increases(e1, e2);
    }
}

/// A number bracketed by consecutive powers has exactly that many digits.
pub proof fn lemma_bit_len_eq(n: nat, t: nat)
    requires
        pow2(t) <= n < pow2(t + 1),
    ensures
        bit_len(n) == t + 1,
        top_tree(n) == pow2(t),
{
    lemma_pow2_pos(t);
    lemma_bit_len_bounds(n);
    let bl = bit_len(n);
    if bl < t + 1 {
        lemma_pow2_le(bl, t);
        assert(false);
    }
    if bl > t + 1 {
        lemma_pow2_le(t + 1, (bl - 1) as nat);
        assert(false);
    }
}

/// Adding a power of two above all set bits adds one set bit.
pub proof fn lemma_pop_count_add_top(t: nat, m: nat)
    requires
        m < pow2(t),
    ensures
        pop_count(pow2(t) + m) == 1 + pop_count(m),
        bit_len(pow2(t) + m) == t + 1,
    decreases t,
{
    lemma_pow2_pos(t);
    assert(bit_len(pow2(t) + m) == t + 1) by {
        lemma_pow2_unfold(t + 1);
        lemma_pow2_adds(t, 1);
        assert(pow2(1) == 2) by {
            vstd::arithmetic::power2::lemma2_to64();
        }
        lemma_bit_len_eq(pow2(t) + m, t);
    }
    if t == 0 {
        assert(pow2(0) == 1) by {
            vstd::arithmetic::power2::lemma2_to64();
        }
        assert(m == 0);
        reveal_with_fuel(pop_count, 3);
    } else {
        let s = pow2(t) + m;
        lemma_pow2_unfold(t);
        assert(s == 2 * pow2((t - 1) as nat) + m);
        assert(s % 2 == m % 2 && s / 2 == pow2((t - 1) as nat) + m / 2) by {
            lemma_fundamental_div_mod(m as int, 2);
            lemma_fundamental_div_mod_converse(
                s as int,
                2,
                pow2((t - 1) as nat) as int + m as int / 2,
                m as int % 2,
            );
        }
        lemma_fundamental_div_mod(m as int, 2);
        lemma_pop_count_add_top((t - 1) as nat, m / 2);
    }
}

/// Multiplying by a power of two does not change the set-bit count.
pub proof fn lemma_pop_count_shift(q: nat, k: nat)
    ensures
        pop_count(q * pow2(k)) == pop_count(q),
    decreases k,
{
    if k == 0 {
        assert(pow2(0) == 1) by {
            vstd::arithmetic::power2::lemma2_to64();
        }
        assert(q * pow2(0) == q);
    } else {
        let s = q * pow2(k);
        lemma_pow2_unfold(k);
        assert(s == 2 * (q * pow2((k - 1) as nat))) by (nonlinear_arith)
            requires
                s == q * pow2(k),
                pow2(k) == 2 * pow2((k - 1) as nat),
        ;
        if q == 0 {
        } else {
            lemma_pow2_pos((k - 1) as nat);
            assert(s % 2 == 0 && s / 2 == q * pow2((k - 1) as nat)) by {
                lemma_fundamental_div_mod_converse(
                    s as int,
                    2,
                    q as int * pow2((k - 1) as nat) as int,
                    0,
                );
            }
            assert(s > 0) by (nonlinear_arith)
                requires
                    s == 2 * (q * pow2((k - 1) as nat)),
                    q >= 1,
                    pow2((k - 1) as nat) >= 1,
            ;
            lemma_pop_count_shift(q, (k - 1) as nat);
        }
    }
}

/// Removing the top power of two leaves every lower bit unchanged.
pub proof fn lemma_bit_set_sub_top(f: nat, b: nat, t: nat)
    requires
        b < t,
        pow2(t) <= f,
    ensures
        bit_set((f - pow2(t)) as nat, b) == bit_set(f, b),
        clear_low((f - pow2(t)) as nat, b + 1) == clear_low(f, b + 1) - pow2(t),
{
    let p = pow2(b);
    let p1 = pow2(b + 1);
    lemma_pow2_pos(b);
    lemma_pow2_pos(b + 1);
    let c = pow2((t - b) as nat);
    let c1 = pow2((t - b - 1) as nat);
    lemma_pow2_adds(b, (t - b) as nat);
    lemma_pow2_adds(b + 1, (t - b - 1) as nat);
    assert(c * p == pow2(t)) by {
        vstd::arithmetic::mul::lemma_mul_is_commutative(c as int, p as int);
    }
    assert(c1 * p1 == pow2(t)) by {
        vstd::arithmetic::mul::lemma_mul_is_commutative(c1 as int, p1 as int);
    }
    lemma_div_sub_multiple(f, c, p);
    lemma_div_sub_multiple(f, c1, p1);
    let m = (f - pow2(t)) as nat;
    assert(m / p == f / p - c);
    assert(m / p1 == f / p1 - c1);
    // parity: c is even because t - b >= 1
    assert(c == 2 * pow2((t - b - 1) as nat)) by {
        lemma_pow2_unfold((t - b) as nat);
    }
    assert((f / p - 2 * c1) % 2 == (f / p) % 2) by {
        lemma_mod_multiples_vanish(-(c1 as int), f as int / p as int, 2);
    }
    // the cleared prefix shifts down by exactly the removed power
    assert((f / p1 - c1) * p1 == (f / p1) * p1 - c1 * p1) by (nonlinear_arith);
}

// SEGMENT AND PEAK LEMMAS
// ================================================================================================
/// Where tree `b` stands in the node buffer: the trees above it occupy the
/// nodes of the cleared-prefix forest, and its own `2 * pow2(b) - 1` nodes
/// follow as one contiguous postorder segment over its own leaf range.
pub proof fn lemma_tree_segment(l: Seq<RpoDigest>, b: nat)
    requires
        bit_set(l.len(), b),
    ensures
        ({
            let f = l.len();
            let lo = clear_low(f, b + 1);
            let no = count_nodes(lo);
            let sz = pow2(b);
            &&& lo + sz <= f
            &&& 0 <= no
            &&& no + 2 * sz - 1 <= forest_nodes(l).len()
            &&& forest_nodes(l).subrange(no, no + 2 * sz - 1) == tree_nodes(
                l.subrange(lo as int, lo + sz as int),
            )
        }),
    decreases l.len(),
{
    let f = l.len();
    let lo = clear_low(f, b + 1);
    let no = count_nodes(lo);
    let sz = pow2(b);
    lemma_bit_set_lt_bit_len(f, b);
    lemma_bit_len_bounds(f);
    lemma_pow2_pos(b);
    lemma_pow2_pos(b + 1);
    crate::forest::lemma_clear_low_step(f, b);
    crate::forest::lemma_clear_low_le(f, b);
    assert(lo + sz <= f);
    lemma_count_nodes_bounds(lo);
    lemma_forest_nodes_len(l);
    let t = (bit_len(f) - 1) as nat;
    let tt = pow2(t) as int;
    let top = l.take(tt);
    let rest = l.skip(tt);
    lemma_tree_nodes_len(top);
    lemma_forest_nodes_len(rest);
    lemma_top_split(f);
    if b == t {
        // the top tree itself: its prefix is empty
        assert(f < pow2(b + 1)) by {
            lemma_pow2_unfold(b + 1);
            lemma_pow2_adds(b, 1);
        }
        assert(f / pow2(b + 1) == 0) by {
            lemma_basic_div(f as int, pow2(b + 1) as int);
        }
        assert(lo == 0 * pow2(b + 1));
        assert(lo == 0);
        assert(no == 0);
        assert(forest_nodes(l).subrange(0, 2 * sz - 1) =~= tree_nodes(top));
        assert(l.subrange(0, sz as int) =~= top);
    } else {
        assert(b < t);
        let f2 = rest.len();
        assert(f2 == f - tt);
        lemma_bit_set_sub_top(f, b, t);
        assert(bit_set(f2, b));
        lemma_tree_segment(rest, b);
        let lo2 = clear_low(f2, b + 1);
        let no2 = count_nodes(lo2);
        assert(lo2 == lo - tt);
        // the prefix node count shifts by the full top tree
        assert(no == no2 + (2 * tt - 1)) by {
            assert(lo == pow2(t) + lo2);
            assert(lo2 < pow2(t)) by {
                crate::forest::lemma_clear_low_le(f2, b + 1);
                lemma_bit_len_bounds_weak(f2, t);
            }
            lemma_pop_count_add_top(t, lo2);
        }
        assert(forest_nodes(l) == tree_nodes(top) + forest_nodes(rest));
        assert(forest_nodes(l).subrange(no, no + 2 * sz - 1) =~= forest_nodes(rest).subrange(
            no2,
            no2 + 2 * sz - 1,
        ));
        assert(l.subrange(lo as int, lo + sz as int) =~= rest.subrange(lo2 as int, lo2 + sz as int));
    }
}

/// A forest with fewer digits than `t + 1` stays below `pow2(t)`.
proof fn lemma_bit_len_bounds_weak(n: nat, t: nat)
    requires
        bit_len(n) <= t,
    ensures
        n < pow2(t),
{
    if n == 0 {
        lemma_pow2_pos(t);
    } else {
        lemma_bit_len_bounds(n);
        lemma_pow2_le(bit_len(n), t);
    }
}

/// Where the root of tree `b` stands in the peaks sequence: after one peak
/// per set bit above `b`.
pub proof fn lemma_peak_at(l: Seq<RpoDigest>, b: nat)
    requires
        bit_set(l.len(), b),
    ensures
        ({
            let f = l.len();
            let lo = clear_low(f, b + 1);
            let idx = pop_count(f / pow2(b + 1));
            &&& lo + pow2(b) <= f
            &&& idx < peaks_of(l).len()
            &&& peaks_of(l)[idx as int] == tree_root(l.subrange(lo as int, lo + pow2(b) as int))
        }),
    decreases l.len(),
{
    let f = l.len();
    let lo = clear_low(f, b + 1);
    let idx = pop_count(f / pow2(b + 1));
    lemma_bit_set_lt_bit_len(f, b);
    lemma_bit_len_bounds(f);
    lemma_pow2_pos(b);
    lemma_pow2_pos(b + 1);
    crate::forest::lemma_clear_low_step(f, b);
    crate::forest::lemma_clear_low_le(f, b);
    lemma_peaks_len(l);
    lemma_top_split(f);
    crate::model::lemma_pop_count_le_f(f / pow2(b + 1));
    let t = (bit_len(f) - 1) as nat;
    let tt = pow2(t) as int;
    let top = l.take(tt);
    let rest = l.skip(tt);
    if b == t {
        assert(f < pow2(b + 1)) by {
            lemma_pow2_unfold(b + 1);
            lemma_pow2_adds(b, 1);
        }
        assert(f / pow2(b + 1) == 0) by {
            lemma_basic_div(f as int, pow2(b + 1) as int);
        }
        assert(lo == 0 * pow2(b + 1));
        assert(lo == 0);
        assert(idx == 0) by {
            reveal_with_fuel(pop_count, 1);
        }
        assert(peaks_of(l)[0] == tree_root(top));
        assert(l.subrange(0, pow2(b) as int) =~= top);
        assert(pop_count(f) >= 1) by {
            lemma_pop_count_le_f(f);
        }
    } else {
        assert(b < t);
        let f2 = rest.len();
        lemma_bit_set_sub_top(f, b, t);
        lemma_peak_at(rest, b);
        let lo2 = clear_low(f2, b + 1);
        let idx2 = pop_count(f2 / pow2(b + 1));
        assert(lo2 == lo - tt);
        // one more set bit above `b`: the top tree
        assert(idx == 1 + idx2) by {
            let c1 = pow2((t - b - 1) as nat);
            lemma_pow2_adds(b + 1, (t - b - 1) as nat);
            assert(c1 * pow2(b + 1) == pow2(t)) by {
                vstd::arithmetic::mul::lemma_mul_is_commutative(c1 as int, pow2(b + 1) as int);
            }
            lemma_div_sub_multiple(f, c1, pow2(b + 1));
            assert(f2 / pow2(b + 1) == f / pow2(b + 1) - c1);
            assert(f2 / pow2(b + 1) < c1) by {
                lemma_bit_len_bounds_weak(f2, t);
                lemma_div_lt(f2, c1, pow2(b + 1));
            }
            assert(f / pow2(b + 1) == c1 + f2 / pow2(b + 1));
            lemma_pop_count_add_top_general(
                (t - b - 1) as nat,
                f2 / pow2(b + 1),
            );
        }
        assert(peaks_of(l) == seq![tree_root(top)] + peaks_of(rest));
        assert(peaks_of(l)[idx as int] == peaks_of(rest)[idx2 as int]);
        assert(l.subrange(lo as int, lo + pow2(b) as int) =~= rest.subrange(lo2 as int, lo2 + pow2(b) as int));
    }
}

/// `pop_count(pow2(t) + m) == 1 + pop_count(m)` for `m < pow2(t)`, stated on
/// the quotient form used by the peak index.
proof fn lemma_pop_count_add_top_general(t: nat, m: nat)
    requires
        m < pow2(t),
    ensures
        pop_count(pow2(t) + m) == 1 + pop_count(m),
{
    lemma_pop_count_add_top(t, m);
}

/// The index of the lowest set bit of a positive number.
pub open spec fn low_bit(n: nat) -> nat
    decreases n,
{
    if n == 0 {
        0
    } else if n % 2 == 1 {
        0
    } else {
        1 + low_bit(n / 2)
    }
}

/// The lowest set bit of a positive number is set, and everything below it
/// is clear.
pub proof fn lemma_low_bit_facts(n: nat)
    requires
        n > 0,
    ensures
        bit_set(n, low_bit(n)),
        n % pow2(low_bit(n)) == 0,
    decreases n,
{
    if n % 2 == 1 {
        lemma_bit0(n);
        assert(pow2(0) == 1) by {
            vstd::arithmetic::power2::lemma2_to64();
        }
        lemma_fundamental_div_mod(n as int, 1);
    } else {
        let h = n / 2;
        let lb = low_bit(h);
        lemma_low_bit_facts(h);
        lemma_fundamental_div_mod(n as int, 2);
        lemma_pow2_pos(lb);
        lemma_pow2_pos(lb + 1);
        lemma_pow2_unfold(lb + 1);
        assert(bit_set(n, lb + 1)) by {
            lemma_div_denominator(n as int, 2, pow2(lb) as int);
            lemma_pow2_adds(1, lb);
            assert(pow2(1) == 2) by {
                vstd::arithmetic::power2::lemma2_to64();
            }
            assert(n / pow2(lb + 1) == h / pow2(lb));
        }
        assert(n % pow2(lb + 1) == 0) by {
            let q = h as int / pow2(lb) as int;
            lemma_fundamental_div_mod(h as int, pow2(lb) as int);
            assert(n as int == pow2(lb + 1) * q + 0) by (nonlinear_arith)
                requires
                    n == 2 * h,
                    h as int == pow2(lb) * q,
                    pow2(lb + 1) == 2 * pow2(lb),
            ;
            lemma_fundamental_div_mod_converse(n as int, pow2(lb + 1) as int, q, 0);
        }
    }
}

/// Set bits split over the digits above and below any cut.
pub proof fn lemma_pop_count_split(q: nat, k: nat, m: nat)
    requires
        m < pow2(k),
    ensures
        pop_count(q * pow2(k) + m) == pop_count(q) + pop_count(m),
    decreases k,
{
    lemma_pow2_pos(k);
    if k == 0 {
        assert(pow2(0) == 1) by {
            vstd::arithmetic::power2::lemma2_to64();
        }
        assert(m == 0);
        assert(q * 1 == q);
    } else {
        let s = q * pow2(k) + m;
        lemma_pow2_unfold(k);
        lemma_pow2_pos((k - 1) as nat);
        if s == 0 {
            assert(q * pow2(k) == 0);
            assert(q == 0) by (nonlinear_arith)
                requires
                    q * pow2(k) == 0,
                    pow2(k) >= 1,
            ;
        } else {
            lemma_fundamental_div_mod(m as int, 2);
            assert(s as int == 2 * (q * pow2((k - 1) as nat) + m as int / 2) + m as int % 2)
                by (nonlinear_arith)
                requires
                    s == q * pow2(k) + m,
                    pow2(k) == 2 * pow2((k - 1) as nat),
                    m as int == 2 * (m as int / 2) + m as int % 2,
            ;
            lemma_fundamental_div_mod_converse(
                s as int,
                2,
                q as int * pow2((k - 1) as nat) as int + m as int / 2,
                m as int % 2,
            );
            assert(s % 2 == m % 2);
            assert(s / 2 == q * pow2((k - 1) as nat) + m / 2);
            assert(m / 2 < pow2((k - 1) as nat)) by {
                lemma_div_lt(m, pow2((k - 1) as nat), 2) /* m < 2 * pow2(k-1) */
            }
            lemma_pop_count_split(q, (k - 1) as nat, m / 2);
        }
    }
}

/// One step of walking the set bits from the top: the highest bit of the
/// low remainder is a set bit of the whole value, and consuming it moves
/// every derived quantity one tree further.
pub proof fn lemma_peaks_step(f: nat, k: nat, b: nat)
    requires
        b + 1 <= k,
        pow2(b) <= f % pow2(k) < pow2(b + 1),
    ensures
        bit_set(f, b),
        clear_low(f, b + 1) == clear_low(f, k),
        f % pow2(b) == f % pow2(k) - pow2(b),
        pop_count(f / pow2(b + 1)) == pop_count(f / pow2(k)),
        pop_count(f / pow2(b)) == pop_count(f / pow2(k)) + 1,
        count_nodes(clear_low(f, b)) == count_nodes(clear_low(f, k)) + 2 * pow2(b) - 1,
        count_nodes(clear_low(f, b)) <= count_nodes(f),
{
    let v = f % pow2(k);
    lemma_pow2_pos(b);
    lemma_pow2_pos(b + 1);
    lemma_pow2_pos(k);
    lemma_pow2_unfold(b + 1);
    // the low remainder of f below b + 1 is v itself
    assert(f % pow2(b + 1) == v) by {
        lemma_mod_of_mod(f, b + 1, k);
        lemma_small_mod(v, pow2(b + 1));
    }
    lemma_bit_from_mod(f, b);
    assert(bit_set(f, b));
    crate::forest::lemma_clear_low_le(f, b + 1);
    crate::forest::lemma_clear_low_le(f, k);
    assert(clear_low(f, b + 1) == clear_low(f, k));
    assert(f % pow2(b) == v - pow2(b)) by {
        lemma_mod_of_mod(f, b, k);
        lemma_fundamental_div_mod_converse(v as int, pow2(b) as int, 1, v as int - pow2(b));
    }
    // popcounts through the shifted views
    assert(pop_count(f / pow2(b + 1)) == pop_count(clear_low(f, b + 1) / pow2(b + 1))) by {
        lemma_div_by_multiple(f as int / pow2(b + 1) as int, pow2(b + 1) as int);
    }
    lemma_pop_count_shift(f / pow2(b + 1), b + 1);
    lemma_pop_count_shift(f / pow2(k), k);
    assert(pop_count(f / pow2(b + 1)) == pop_count(f / pow2(k))) by {
        assert(clear_low(f, b + 1) == (f / pow2(b + 1)) * pow2(b + 1));
        assert(clear_low(f, k) == (f / pow2(k)) * pow2(k));
        assert(pop_count((f / pow2(b + 1)) * pow2(b + 1)) == pop_count(f / pow2(b + 1)));
        assert(pop_count((f / pow2(k)) * pow2(k)) == pop_count(f / pow2(k)));
    }
    assert(pop_count(f / pow2(b)) == pop_count(f / pow2(b + 1)) + 1) by {
        lemma_pow2_adds(b, 1);
        assert(pow2(1) == 2) by {
            vstd::arithmetic::power2::lemma2_to64();
        }
        lemma_div_denominator(f as int, pow2(b) as int, 2);
        assert(f / pow2(b + 1) == (f / pow2(b)) / 2);
        lemma_fundamental_div_mod(f as int / pow2(b) as int, 2);
        assert(f / pow2(b) == 2 * (f / pow2(b + 1)) + 1);
        assert(pop_count(2 * (f / pow2(b + 1)) + 1) == 1 + pop_count(f / pow2(b + 1))) by {
            lemma_fundamental_div_mod_converse(
                (2 * (f / pow2(b + 1)) + 1) as int,
                2,
                (f / pow2(b + 1)) as int,
                1,
            );
        }
    }
    lemma_count_nodes_step(f, b);
    // discarding the low digits cannot grow the node count
    assert(count_nodes(clear_low(f, b)) <= count_nodes(f)) by {
        let r = f % pow2(b);
        lemma_fundamental_div_mod(f as int, pow2(b) as int);
        vstd::arithmetic::mul::lemma_mul_is_commutative(pow2(b) as int, f as int / pow2(b) as int);
        lemma_pop_count_split(f / pow2(b), b, r);
        lemma_pop_count_shift(f / pow2(b), b);
        lemma_pop_count_le_f(r);
        assert(f == (f / pow2(b)) * pow2(b) + r);
        assert(pop_count(f) == pop_count(f / pow2(b)) + pop_count(r));
        assert(pop_count(clear_low(f, b)) == pop_count(f / pow2(b)));
    }
}

/// Bit zero is the parity.
pub proof fn lemma_bit0(x: nat)
    ensures
        bit_set(x, 0) == (x % 2 == 1),
{
    assert(pow2(0) == 1) by {
        vstd::arithmetic::power2::lemma2_to64();
    }
    lemma_fundamental_div_mod(x as int, 1);
}

/// Incrementing sets at most one new bit.
pub proof fn lemma_pop_count_succ(n: nat)
    ensures
        pop_count(n + 1) <= pop_count(n) + 1,
    decreases n,
{
    if n % 2 == 0 {
        lemma_fundamental_div_mod(n as int, 2);
        lemma_fundamental_div_mod_converse((n + 1) as int, 2, n as int / 2, 1);
        assert((n + 1) % 2 == 1 && (n + 1) / 2 == n / 2);
    } else {
        let q = n / 2;
        lemma_fundamental_div_mod(n as int, 2);
        lemma_fundamental_div_mod_converse((n + 1) as int, 2, q as int + 1, 0);
        assert((n + 1) % 2 == 0 && (n + 1) / 2 == q + 1);
        lemma_pop_count_succ(q);
    }
}

/// Appending a leaf to an even forest adds exactly one node and one set bit.
pub proof fn lemma_count_nodes_even_succ(n: nat)
    requires
        n % 2 == 0,
    ensures
        pop_count(n + 1) == pop_count(n) + 1,
        count_nodes(n + 1) == count_nodes(n) + 1,
{
    lemma_fundamental_div_mod(n as int, 2);
    lemma_fundamental_div_mod_converse((n + 1) as int, 2, n as int / 2, 1);
    assert((n + 1) % 2 == 1 && (n + 1) / 2 == n / 2);
}

/// Node counts grow with the leaf count.
pub proof fn lemma_count_nodes_mono(a: nat, b: nat)
    requires
        a <= b,
    ensures
        count_nodes(a) <= count_nodes(b),
    decreases b - a,
{
    if a < b {
        lemma_pop_count_succ(a);
        lemma_count_nodes_mono(a + 1, b);
    }
}

/// Adding a power of two on top of an already set bit only merges bits, so
/// the set-bit count cannot grow.
pub proof fn lemma_pop_count_add_set_bit(a: nat, j: nat)
    requires
        bit_set(a, j),
    ensures
        pop_count(a + pow2(j)) <= pop_count(a),
        count_nodes(a) + count_nodes(pow2(j)) + 1 <= count_nodes((a + pow2(j)) as nat),
    decreases j,
{
    lemma_pow2_pos(j);
    crate::model::lemma_bit_set_lt_bit_len(a, j);
    if j == 0 {
        assert(pow2(0) == 1) by {
            vstd::arithmetic::power2::lemma2_to64();
        }
        lemma_bit0(a);
        assert(a % 2 == 1);
        let q = a / 2;
        lemma_fundamental_div_mod(a as int, 2);
        lemma_fundamental_div_mod_converse((a + 1) as int, 2, q as int + 1, 0);
        assert((a + 1) % 2 == 0 && (a + 1) / 2 == q + 1);
        lemma_pop_count_succ(q);
    } else {
        let ap = a / 2;
        let r = a % 2;
        lemma_pow2_unfold(j);
        lemma_fundamental_div_mod(a as int, 2);
        // bit j of a is bit j - 1 of the half
        assert(bit_set(ap, (j - 1) as nat)) by {
            lemma_pow2_pos((j - 1) as nat);
            lemma_div_denominator(a as int, 2, pow2((j - 1) as nat) as int);
            assert(a / pow2(j) == ap / pow2((j - 1) as nat)) by {
                lemma_pow2_adds(1, (j - 1) as nat);
                assert(pow2(1) == 2) by {
                    vstd::arithmetic::power2::lemma2_to64();
                }
            }
        }
        lemma_pop_count_add_set_bit(ap, (j - 1) as nat);
        assert((a + pow2(j)) % 2 == r && (a + pow2(j)) / 2 == ap + pow2((j - 1) as nat)) by {
            lemma_fundamental_div_mod_converse(
                (a + pow2(j)) as int,
                2,
                ap as int + pow2((j - 1) as nat) as int,
                r as int,
            );
        }
        assert(pop_count(a + pow2(j)) == r + pop_count(ap + pow2((j - 1) as nat)));
        assert(pop_count(a) == r + pop_count(ap));
    }
    crate::model::lemma_pop_count_pow2(j);
}

/// Setting a clear bit adds exactly one to the set-bit count.
pub proof fn lemma_pop_count_add_top_low(a: nat, j: nat)
    requires
        !bit_set(a, j),
    ensures
        pop_count(a + pow2(j)) == pop_count(a) + 1,
        bit_set((a + pow2(j)) as nat, j),
    decreases j,
{
    lemma_pow2_pos(j);
    if j == 0 {
        assert(pow2(0) == 1) by {
            vstd::arithmetic::power2::lemma2_to64();
        }
        lemma_bit0(a);
        lemma_fundamental_div_mod(a as int, 2);
        lemma_fundamental_div_mod_converse((a + 1) as int, 2, a as int / 2, 1);
        lemma_bit0(a + 1);
    } else {
        let ap = a / 2;
        let r = a % 2;
        lemma_pow2_unfold(j);
        lemma_pow2_pos((j - 1) as nat);
        lemma_fundamental_div_mod(a as int, 2);
        assert(!bit_set(ap, (j - 1) as nat)) by {
            lemma_div_denominator(a as int, 2, pow2((j - 1) as nat) as int);
            lemma_pow2_adds(1, (j - 1) as nat);
            assert(pow2(1) == 2) by {
                vstd::arithmetic::power2::lemma2_to64();
            }
        }
        lemma_pop_count_add_top_low(ap, (j - 1) as nat);
        let m = (a + pow2(j)) as nat;
        assert(m % 2 == r && m / 2 == ap + pow2((j - 1) as nat)) by {
            lemma_fundamental_div_mod_converse(
                m as int,
                2,
                ap as int + pow2((j - 1) as nat) as int,
                r as int,
            );
        }
        assert(bit_set(m, j)) by {
            lemma_div_denominator(m as int, 2, pow2((j - 1) as nat) as int);
            lemma_pow2_adds(1, (j - 1) as nat);
            assert(pow2(1) == 2) by {
                vstd::arithmetic::power2::lemma2_to64();
            }
            assert(m / pow2(j) == (m / 2) / pow2((j - 1) as nat));
        }
    }
}

// MEMBERSHIP PATHS
// ================================================================================================
/// The sibling digests from leaf `pos` up to the root of the perfect tree
/// over `l`, leaf to root: the sibling inside the leaf's half first, the root
/// of the other half last.
pub open spec fn merkle_path(l: Seq<RpoDigest>, pos: nat) -> Seq<RpoDigest>
    decreases l.len(),
{
    if l.len() <= 1 {
        Seq::empty()
    } else {
        let h = l.len() as int / 2;
        if pos < h {
            merkle_path(l.take(h), pos) + seq![tree_root(l.skip(h))]
        } else {
            merkle_path(l.skip(h), (pos - h) as nat) + seq![tree_root(l.take(h))]
        }
    }
}

/// The bit index of the tree owning position `pos` in forest `f`.
pub open spec fn owner_bit(f: nat, pos: nat) -> nat {
    choose|b: nat| crate::forest::owns_leaf(f, b, pos)
}

/// The leaves of the tree at bit `b` of the forest over `l`.
pub open spec fn owner_tree_leaves(l: Seq<RpoDigest>, b: nat) -> Seq<RpoDigest> {
    let lo = clear_low(l.len(), b + 1);
    l.subrange(lo as int, lo + pow2(b) as int)
}

/// A path in a tree of `pow2(d)` leaves has `d` siblings.
pub proof fn lemma_merkle_path_len(l: Seq<RpoDigest>, d: nat, pos: nat)
    requires
        l.len() == pow2(d),
        pos < l.len(),
    ensures
        merkle_path(l, pos).len() == d,
    decreases d,
{
    lemma_pow2_pos(d);
    if d == 0 {
        assert(pow2(0) == 1) by {
            vstd::arithmetic::power2::lemma2_to64();
        }
    } else {
        lemma_pow2_unfold(d);
        let h = l.len() as int / 2;
        assert(h == pow2((d - 1) as nat)) by {
            lemma_div_multiples_vanish(pow2((d - 1) as nat) as int, 2);
        }
        if pos < h {
            lemma_merkle_path_len(l.take(h), (d - 1) as nat, pos);
        } else {
            lemma_merkle_path_len(l.skip(h), (d - 1) as nat, (pos - h) as nat);
        }
    }
}

/// Which half of the current subtree a position falls in, read off one bit of
/// the position, provided the subtree starts at a multiple of its size.
pub proof fn lemma_rel_bit(a: nat, rc: nat, d: nat)
    requires
        d >= 1,
        a % pow2(d) == 0,
        rc < pow2(d),
    ensures
        bit_set(a + rc, (d - 1) as nat) == (rc >= pow2((d - 1) as nat)),
{
    let dm = (d - 1) as nat;
    let p = pow2(dm) as int;
    lemma_pow2_pos(dm);
    lemma_pow2_pos(d);
    lemma_pow2_unfold(d);
    let q = a as int / pow2(d) as int;
    assert(a == q * pow2(d)) by {
        lemma_fundamental_div_mod(a as int, pow2(d) as int);
        vstd::arithmetic::mul::lemma_mul_is_commutative(pow2(d) as int, q);
    }
    // split rc by the half size
    lemma_fundamental_div_mod(rc as int, p);
    vstd::arithmetic::div_mod::lemma_mod_bound(rc as int, p);
    let rq = rc as int / p;
    assert(rq < 2) by {
        lemma_div_lt(rc, 2, pow2(dm));
    }
    assert((a + rc) as int == p * ((2 * q + rq)) + rc as int % p) by (nonlinear_arith)
        requires
            a == q * pow2(d) as int,
            pow2(d) as int == 2 * p,
            rc as int == p * rq + rc as int % p,
    ;
    lemma_fundamental_div_mod_converse((a + rc) as int, p, 2 * q + rq, rc as int % p);
    assert((a + rc) as nat / pow2(dm) == 2 * q + rq);
    if rq == 1 {
        lemma_fundamental_div_mod_converse((2 * q + 1) as int, 2, q, 1);
        assert(rc >= pow2(dm)) by (nonlinear_arith)
            requires
                rc as int == p * rq + rc as int % p,
                rq == 1,
                rc as int % p >= 0,
                p == pow2(dm) as int,
        ;
    } else {
        assert(rq == 0);
        lemma_fundamental_div_mod_converse((2 * q) as int, 2, q, 0);
        assert(rc < pow2(dm)) by (nonlinear_arith)
            requires
                rc as int == p * rq + rc as int % p,
                rq == 0,
                rc as int % p < p,
                p == pow2(dm) as int,
        ;
    }
}

/// Splitting one subtree segment of the node buffer into the segments of its
/// two halves, with each half's root at the end of its segment.
pub proof fn lemma_segment_split(tn: Seq<RpoDigest>, tl: Seq<RpoDigest>, s: int, a: nat, d: nat)
    requires
        d >= 1,
        a + pow2(d) <= tl.len(),
        0 <= s,
        s + 2 * pow2(d) - 1 <= tn.len(),
        tn.subrange(s, s + 2 * pow2(d) - 1) == tree_nodes(
            tl.subrange(a as int, a + pow2(d) as int),
        ),
    ensures
        ({
            let h = pow2((d - 1) as nat) as int;
            let cur = tl.subrange(a as int, a + pow2(d) as int);
            &&& pow2(d) == 2 * h
            &&& tn.subrange(s, s + 2 * h - 1) == tree_nodes(tl.subrange(a as int, a + h))
            &&& tn.subrange(s + 2 * h - 1, s + 4 * h - 2) == tree_nodes(
                tl.subrange(a + h, a + 2 * h),
            )
            &&& tn[s + 2 * h - 2] == tree_root(tl.subrange(a as int, a + h))
            &&& tn[s + 4 * h - 3] == tree_root(tl.subrange(a + h, a + 2 * h))
        }),
{
    let h = pow2((d - 1) as nat) as int;
    let cur = tl.subrange(a as int, a + pow2(d) as int);
    lemma_pow2_pos(d);
    lemma_pow2_pos((d - 1) as nat);
    lemma_pow2_unfold(d);
    assert(cur.len() == pow2(d));
    assert(cur.len() as int / 2 == h) by {
        lemma_div_multiples_vanish(h, 2);
    }
    assert(cur.len() > 1);
    assert(tree_nodes(cur) == tree_nodes(cur.take(h)) + tree_nodes(cur.skip(h)) + seq![
        tree_root(cur),
    ]);
    lemma_tree_nodes_len(cur.take(h));
    lemma_tree_nodes_len(cur.skip(h));
    lemma_tree_nodes_last(cur.take(h));
    lemma_tree_nodes_last(cur.skip(h));
    assert(cur.take(h) =~= tl.subrange(a as int, a + h));
    assert(cur.skip(h) =~= tl.subrange(a + h, a + 2 * h));
    let seg = tn.subrange(s, s + 2 * pow2(d) - 1);
    assert forall|j: int| 0 <= j < 2 * pow2(d) - 1 implies tn[s + j] == #[trigger] tree_nodes(
        cur,
    )[j] by {
        assert(seg[j] == tn[s + j]);
    }
    assert(tn.subrange(s, s + 2 * h - 1) =~= tree_nodes(cur.take(h)));
    assert forall|k: int| 0 <= k < 2 * h - 1 implies tree_nodes(cur)[2 * h - 1 + k]
        == #[trigger] tree_nodes(cur.skip(h))[k] by {
        assert(tree_nodes(cur)[2 * h - 1 + k] == (tree_nodes(cur.take(h)) + tree_nodes(
            cur.skip(h),
        ) + seq![tree_root(cur)])[2 * h - 1 + k]);
    }
    assert(tn.subrange(s + 2 * h - 1, s + 4 * h - 2) =~= tree_nodes(cur.skip(h)));
    assert(tn[s + 2 * h - 2] == tree_nodes(cur.take(h)).last());
    assert(tn[s + 4 * h - 3] == tree_nodes(cur)[4 * h - 3]);
    assert(tree_nodes(cur)[4 * h - 3] == tree_nodes(cur.skip(h))[2 * h - 2]);
}

/// Recomputing a root from a leaf value and its sibling path, leaf to root:
/// at each level the low bit of the remaining relative position says which
/// side the current value stands on.
pub open spec fn fold_path(value: RpoDigest, path: Seq<RpoDigest>, pos: nat) -> RpoDigest
    decreases path.len(),
{
    if path.len() == 0 {
        value
    } else {
        let acc = if pos % 2 == 1 {
            merge_spec(path.first(), value)
        } else {
            merge_spec(value, path.first())
        };
        fold_path(acc, path.drop_first(), pos / 2)
    }
}

/// Folding a concatenated path folds the pieces in order, the position
/// shifted down by the levels already consumed.
pub proof fn lemma_fold_concat(value: RpoDigest, p1: Seq<RpoDigest>, p2: Seq<RpoDigest>, pos: nat)
    ensures
        fold_path(value, p1 + p2, pos) == fold_path(
            fold_path(value, p1, pos),
            p2,
            pos / pow2(p1.len()),
        ),
    decreases p1.len(),
{
    if p1.len() == 0 {
        assert(p1 + p2 =~= p2);
        assert(pow2(0) == 1) by {
            vstd::arithmetic::power2::lemma2_to64();
        }
        assert(pos / pow2(0) == pos);
    } else {
        let acc = if pos % 2 == 1 {
            merge_spec((p1 + p2).first(), value)
        } else {
            merge_spec(value, (p1 + p2).first())
        };
        assert((p1 + p2).first() == p1.first());
        assert((p1 + p2).drop_first() =~= p1.drop_first() + p2);
        lemma_fold_concat(acc, p1.drop_first(), p2, pos / 2);
        lemma_pow2_pos((p1.len() - 1) as nat);
        assert((pos / 2) / pow2((p1.len() - 1) as nat) == pos / pow2(p1.len())) by {
            lemma_div_denominator(pos as int, 2, pow2((p1.len() - 1) as nat) as int);
            lemma_pow2_unfold(p1.len());
            lemma_pow2_adds(1, (p1.len() - 1) as nat);
            assert(pow2(1) == 2) by {
                vstd::arithmetic::power2::lemma2_to64();
            }
        }
    }
}

/// The fold reads only the low bits of the position, one per path entry.
pub proof fn lemma_fold_mod(value: RpoDigest, p: Seq<RpoDigest>, pos1: nat, pos2: nat)
    requires
        pos1 % pow2(p.len()) == pos2 % pow2(p.len()),
    ensures
        fold_path(value, p, pos1) == fold_path(value, p, pos2),
    decreases p.len(),
{
    if p.len() > 0 {
        let n = p.len();
        assert(pos1 % 2 == pos2 % 2 && (pos1 / 2) % pow2((n - 1) as nat) == (pos2 / 2) % pow2(
            (n - 1) as nat,
        )) by {
            lemma_mod_of_mod(pos1, 1, n);
            lemma_mod_of_mod(pos2, 1, n);
            assert(pow2(1) == 2) by {
                vstd::arithmetic::power2::lemma2_to64();
            }
            lemma_mod_low_halves(pos1, n);
            lemma_mod_low_halves(pos2, n);
        }
        let acc = if pos1 % 2 == 1 {
            merge_spec(p.first(), value)
        } else {
            merge_spec(value, p.first())
        };
        lemma_fold_mod(acc, p.drop_first(), pos1 / 2, pos2 / 2);
    }
}

/// `(x / 2) % pow2(n - 1) == (x % pow2(n)) / 2` for `n >= 1`.
proof fn lemma_mod_low_halves(x: nat, n: nat)
    requires
        n >= 1,
    ensures
        (x / 2) % pow2((n - 1) as nat) == (x % pow2(n)) / 2,
        x % 2 == (x % pow2(n)) % 2,
{
    let nm = (n - 1) as nat;
    let p = pow2(nm) as int;
    lemma_pow2_pos(nm);
    lemma_pow2_pos(n);
    lemma_pow2_unfold(n);
    lemma_fundamental_div_mod(x as int, pow2(n) as int);
    vstd::arithmetic::div_mod::lemma_mod_bound(x as int, pow2(n) as int);
    let q = x as int / pow2(n) as int;
    let r = x as int % pow2(n) as int;
    lemma_fundamental_div_mod(r, 2);
    vstd::arithmetic::div_mod::lemma_mod_bound(r, 2);
    // x == 2 * (p * q + r / 2) + r % 2
    assert(x as int == 2 * (p * q + r / 2) + r % 2) by (nonlinear_arith)
        requires
            x as int == (2 * p) * q + r,
            r == 2 * (r / 2) + r % 2,
    ;
    lemma_fundamental_div_mod_converse(x as int, 2, p * q + r / 2, r % 2);
    assert(x % 2 == r % 2);
    assert(x as int / 2 == p * q + r / 2);
    assert(0 <= r / 2 < p) by {
        lemma_div_lt((r as nat), pow2(nm), 2);
    }
    vstd::arithmetic::mul::lemma_mul_is_commutative(p, q);
    lemma_fundamental_div_mod_converse(x as int / 2, p, q, r / 2);
}

/// Folding a one-entry path is a single merge, sides picked by the low bit.
proof fn lemma_fold_single(value: RpoDigest, s: RpoDigest, pos: nat)
    ensures
        fold_path(value, seq![s], pos) == if pos % 2 == 1 {
            merge_spec(s, value)
        } else {
            merge_spec(value, s)
        },
{
    reveal_with_fuel(fold_path, 2);
    let single = seq![s];
    assert(single.len() == 1);
    assert(single.first() == s);
    assert(single.drop_first() =~= Seq::<RpoDigest>::empty());
    let acc = if pos % 2 == 1 {
        merge_spec(s, value)
    } else {
        merge_spec(value, s)
    };
    assert(fold_path(acc, single.drop_first(), pos / 2) == acc);
}

/// Folding the sibling path of a leaf recomputes the tree's root.
pub proof fn lemma_fold_merkle_path(l: Seq<RpoDigest>, d: nat, pos: nat)
    requires
        l.len() == pow2(d),
        pos < l.len(),
    ensures
        fold_path(l[pos as int], merkle_path(l, pos), pos) == tree_root(l),
    decreases d,
{
    lemma_pow2_pos(d);
    if d == 0 {
        assert(pow2(0) == 1) by {
            vstd::arithmetic::power2::lemma2_to64();
        }
    } else {
        let h = l.len() as int / 2;
        let dm = (d - 1) as nat;
        lemma_pow2_unfold(d);
        lemma_pow2_pos(dm);
        assert(h == pow2(dm)) by {
            lemma_div_multiples_vanish(pow2(dm) as int, 2);
        }
        assert(l.len() > 1);
        lemma_merkle_path_len(l, d, pos);
        if pos < h {
            let pl = merkle_path(l.take(h), pos);
            lemma_merkle_path_len(l.take(h), dm, pos);
            lemma_fold_concat(l[pos as int], pl, seq![tree_root(l.skip(h))], pos);
            assert(l.take(h)[pos as int] == l[pos as int]);
            lemma_fold_merkle_path(l.take(h), dm, pos);
            assert(pos / pow2(dm) == 0) by {
                lemma_basic_div(pos as int, pow2(dm) as int);
            }
            lemma_fold_single(tree_root(l.take(h)), tree_root(l.skip(h)), 0);
        } else {
            let pos2 = (pos - h) as nat;
            let pr = merkle_path(l.skip(h), pos2);
            lemma_merkle_path_len(l.skip(h), dm, pos2);
            lemma_fold_concat(l[pos as int], pr, seq![tree_root(l.take(h))], pos);
            assert(l.skip(h)[pos2 as int] == l[pos as int]);
            // the low bits agree, so folding inside the right half matches
            assert(pos % pow2(dm) == pos2 % pow2(dm)) by {
                lemma_mod_multiples_vanish(1, pos2 as int, pow2(dm) as int);
                vstd::arithmetic::mul::lemma_mul_is_commutative(pow2(dm) as int, 1);
            }
            lemma_fold_mod(l[pos as int], pr, pos, pos2);
            lemma_fold_merkle_path(l.skip(h), dm, pos2);
            assert(pos / pow2(dm) == 1) by {
                lemma_fundamental_div_mod_converse(
                    pos as int,
                    pow2(dm) as int,
                    1,
                    pos as int - pow2(dm),
                );
            }
            lemma_fold_single(tree_root(l.skip(h)), tree_root(l.take(h)), 1);
        }
    }
}

/// Every position below the leaf count is owned by some tree of the forest.
pub proof fn lemma_owner_exists(f: nat, pos: nat)
    requires
        pos < f,
    ensures
        crate::forest::owns_leaf(f, owner_bit(f, pos), pos),
        owner_bit(f, pos) < bit_len(f),
    decreases f,
{
    lemma_bit_len_bounds(f);
    let t = (bit_len(f) - 1) as nat;
    let witness: nat = if pos < pow2(t) {
        // the top tree owns the leading range
        crate::forest::lemma_highest_bit_set(f, t);
        assert(f < pow2(t + 1)) by {
            lemma_pow2_unfold(t + 1);
            lemma_pow2_adds(t, 1);
        }
        assert(clear_low(f, t + 1) == 0) by {
            lemma_pow2_pos(t + 1);
            lemma_basic_div(f as int, pow2(t + 1) as int);
            assert(f / pow2(t + 1) == 0);
            assert(clear_low(f, t + 1) == 0 * pow2(t + 1));
        }
        t
    } else {
        lemma_pow2_pos(t);
        let f2 = (f - pow2(t)) as nat;
        let pos2 = (pos - pow2(t)) as nat;
        lemma_owner_exists(f2, pos2);
        let b2 = owner_bit(f2, pos2);
        lemma_top_split(f);
        assert(bit_len(f2) <= t);
        assert(b2 < t);
        lemma_bit_set_sub_top(f, b2, t);
        assert(crate::forest::owns_leaf(f, b2, pos));
        b2
    };
    assert(crate::forest::owns_leaf(f, witness, pos));
    let bc = owner_bit(f, pos);
    assert(crate::forest::owns_leaf(f, bc, pos));
    crate::model::lemma_bit_set_lt_bit_len(f, bc);
}

/// The peak of a set bit stands strictly inside the peaks sequence.
pub proof fn lemma_peak_index_bound(f: nat, b: nat)
    requires
        bit_set(f, b),
    ensures
        pop_count(f / pow2(b + 1)) < pop_count(f),
{
    lemma_pow2_pos(b);
    lemma_pow2_pos(b + 1);
    lemma_pow2_unfold(b + 1);
    lemma_pow2_adds(b, 1);
    assert(pow2(1) == 2) by {
        vstd::arithmetic::power2::lemma2_to64();
    }
    lemma_div_denominator(f as int, pow2(b) as int, 2);
    assert(f / pow2(b + 1) == (f / pow2(b)) / 2);
    assert(pop_count(f / pow2(b)) == 1 + pop_count(f / pow2(b + 1))) by {
        assert(f / pow2(b) > 0);
    }
    // the quotient's bits are among the whole value's bits
    let r = f % pow2(b);
    lemma_fundamental_div_mod(f as int, pow2(b) as int);
    vstd::arithmetic::mul::lemma_mul_is_commutative(pow2(b) as int, f as int / pow2(b) as int);
    vstd::arithmetic::div_mod::lemma_mod_bound(f as int, pow2(b) as int);
    lemma_pop_count_split(f / pow2(b), b, r);
}

// APPENDING A LEAF
// ================================================================================================
/// Root of the tree built by the first `i` merge steps of an append: the tree
/// over the last `pow2(i) - 1` old leaves followed by the new element.
pub open spec fn climb_root(l: Seq<RpoDigest>, e: RpoDigest, i: nat) -> RpoDigest {
    tree_root(l.skip(l.len() - (pow2(i) - 1)).push(e))
}

/// The nodes an append writes: the new leaf, then one merged parent per
/// trailing set bit of the old leaf count.
pub open spec fn climb_seq(l: Seq<RpoDigest>, e: RpoDigest, t: nat) -> Seq<RpoDigest> {
    Seq::new(t + 1, |i: int| climb_root(l, e, i as nat))
}

/// The trailing ones are the low remainder: below them everything is set, and
/// the bit just above them is clear.
pub proof fn lemma_trailing_ones_mod(x: nat)
    ensures
        x % pow2(trailing_ones(x)) == pow2(trailing_ones(x)) - 1,
        x % pow2(trailing_ones(x) + 1) == pow2(trailing_ones(x)) - 1,
        pow2(trailing_ones(x)) - 1 <= x,
    decreases x,
{
    let t = trailing_ones(x);
    if x % 2 == 0 {
        assert(pow2(0) == 1 && pow2(1) == 2) by {
            vstd::arithmetic::power2::lemma2_to64();
        }
        lemma_small_mod(0, 2);
        lemma_fundamental_div_mod(x as int, 2);
        lemma_fundamental_div_mod_converse(x as int, 2, x as int / 2, 0);
        assert(x % pow2(1) == 0) by {
            lemma_fundamental_div_mod_converse(x as int, 2, x as int / 2, 0);
        }
        assert(x % pow2(0) == 0) by {
            vstd::arithmetic::div_mod::lemma_mod_self_0(1);
            lemma_fundamental_div_mod_converse(x as int, 1, x as int, 0);
        }
    } else {
        lemma_trailing_ones_mod(x / 2);
        let t2 = trailing_ones(x / 2);
        assert(t == 1 + t2);
        lemma_pow2_unfold(t);
        lemma_pow2_unfold(t + 1);
        lemma_pow2_pos(t2);
        lemma_pow2_pos(t2 + 1);
        lemma_fundamental_div_mod(x as int, 2);
        // x = 2 * (x / 2) + 1; fold the halves' remainders up one bit
        lemma_mod_double(x, t2);
        lemma_mod_double(x, t2 + 1);
    }
}

/// `x % pow2(k + 1)` from `(x / 2) % pow2(k)` for odd `x`.
proof fn lemma_mod_double(x: nat, k: nat)
    requires
        x % 2 == 1,
    ensures
        x % pow2(k + 1) == 2 * ((x / 2) % pow2(k)) + 1,
{
    let h = x / 2;
    let p = pow2(k) as int;
    let p2 = pow2(k + 1) as int;
    lemma_pow2_pos(k);
    lemma_pow2_pos(k + 1);
    lemma_pow2_unfold(k + 1);
    assert(p2 == 2 * p);
    lemma_fundamental_div_mod(x as int, 2);
    lemma_fundamental_div_mod(h as int, p);
    vstd::arithmetic::div_mod::lemma_mod_bound(h as int, p);
    // x == p2 * (h / p) + (2 * (h % p) + 1), and the remainder is in range
    assert(x as int == p2 * (h as int / p) + (2 * (h as int % p) + 1)) by (nonlinear_arith)
        requires
            x as int == 2 * (h as int) + 1,
            h as int == p * (h as int / p) + h as int % p,
            p2 == 2 * p,
    ;
    lemma_fundamental_div_mod_converse(x as int, p2, h as int / p, 2 * (h as int % p) + 1);
}

/// The converse: the remainder pattern pins the trailing-ones count.
pub proof fn lemma_trailing_ones_from_mod(x: nat, t: nat)
    requires
        x % pow2(t + 1) == pow2(t) - 1,
    ensures
        trailing_ones(x) == t,
    decreases t,
{
    lemma_pow2_pos(t);
    lemma_pow2_pos(t + 1);
    if t == 0 {
        // x is even
        assert(pow2(0) == 1 && pow2(1) == 2) by {
            vstd::arithmetic::power2::lemma2_to64();
        }
        assert(x % 2 == 0);
    } else {
        lemma_pow2_unfold(t);
        lemma_pow2_unfold(t + 1);
        // x odd: pow2(t) - 1 is odd, and x mod an even power keeps parity
        let p2 = pow2(t + 1) as int;
        let pt = pow2(t) as int;
        let pt1 = pow2((t - 1) as nat) as int;
        lemma_fundamental_div_mod(x as int, p2);
        assert(x % 2 == 1) by {
            let q = x as int / p2;
            assert(x as int == p2 * q + (pt - 1));
            assert(x as int == 2 * (pt * q + pt1 - 1) + 1) by (nonlinear_arith)
                requires
                    x as int == p2 * q + (pt - 1),
                    p2 == 2 * pt,
                    pt == 2 * pt1,
            ;
            lemma_fundamental_div_mod_converse(x as int, 2, pt * q + pt1 - 1, 1);
        }
        assert((x / 2) % pow2(t) == pow2((t - 1) as nat) - 1) by {
            lemma_mod_double(x, t);
            lemma_pow2_unfold(t);
        }
        lemma_trailing_ones_from_mod(x / 2, (t - 1) as nat);
    }
}

/// Bits inside the trailing-ones run are set; the bit just above is clear.
pub proof fn lemma_bit_set_trailing(f: nat, i: nat)
    requires
        i <= trailing_ones(f),
    ensures
        i < trailing_ones(f) ==> bit_set(f, i),
        i == trailing_ones(f) ==> !bit_set(f, i),
    decreases i,
{
    let t = trailing_ones(f);
    lemma_trailing_ones_mod(f);
    let p = pow2(i) as int;
    let p1 = pow2(i + 1) as int;
    lemma_pow2_pos(i);
    lemma_pow2_pos(i + 1);
    lemma_pow2_pos(t);
    lemma_pow2_unfold(i + 1);
    if i < t {
        // f % pow2(i + 1) == pow2(i + 1) - 1, so the quotient bit is odd
        assert(f % pow2(i + 1) == pow2(i + 1) - 1) by {
            lemma_mod_of_mod(f, i + 1, t);
            assert(f % pow2(i + 1) == (f % pow2(t)) % pow2(i + 1));
            assert(f % pow2(t) == (pow2(t) - 1) as nat);
            lemma_all_ones_mod(t, i + 1);
            assert(((pow2(t) - 1) as nat) % pow2(i + 1) == pow2(i + 1) - 1);
        }
        lemma_bit_from_mod(f, i);
    } else {
        assert(f % pow2(i + 1) == pow2(i) - 1) by {
            assert(i == t);
        }
        lemma_bit_from_mod(f, i);
    }
}

/// A remainder of all-ones from a longer run of ones.
proof fn lemma_all_ones_mod(t: nat, k: nat)
    requires
        k <= t,
    ensures
        (pow2(t) - 1) as nat % pow2(k) == pow2(k) - 1,
{
    lemma_pow2_pos(t);
    lemma_pow2_pos(k);
    lemma_pow2_adds(k, (t - k) as nat);
    let p = pow2(k) as int;
    let c = pow2((t - k) as nat) as int;
    assert(pow2(t) as int - 1 == p * (c - 1) + (p - 1)) by (nonlinear_arith)
        requires
            pow2(t) as int == p * c,
    ;
    lemma_fundamental_div_mod_converse((pow2(t) - 1) as int, p, c - 1, p - 1);
}

/// The remainder modulo a smaller power is the remainder of the remainder.
proof fn lemma_mod_of_mod(x: nat, k: nat, t: nat)
    requires
        k <= t,
    ensures
        x % pow2(k) == (x % pow2(t)) % pow2(k),
{
    lemma_pow2_pos(t);
    lemma_pow2_pos(k);
    lemma_pow2_adds(k, (t - k) as nat);
    vstd::arithmetic::div_mod::lemma_mod_mod(x as int, pow2(k) as int, pow2((t - k) as nat) as int);
    vstd::arithmetic::mul::lemma_mul_is_commutative(pow2(k) as int, pow2((t - k) as nat) as int);
}

/// Reading one bit out of the low remainder.
proof fn lemma_bit_from_mod(f: nat, i: nat)
    requires
        pow2(i) - 1 <= f % pow2(i + 1),
    ensures
        bit_set(f, i) == (f % pow2(i + 1) >= pow2(i)),
{
    let p = pow2(i) as int;
    let p1 = pow2(i + 1) as int;
    lemma_pow2_pos(i);
    lemma_pow2_pos(i + 1);
    lemma_pow2_unfold(i + 1);
    let q = f as int / p1;
    let r = f as int % p1;
    lemma_fundamental_div_mod(f as int, p1);
    vstd::arithmetic::div_mod::lemma_mod_bound(f as int, p1);
    if r >= p {
        assert(f as int == p * (2 * q + 1) + (r - p)) by (nonlinear_arith)
            requires
                f as int == p1 * q + r,
                p1 == 2 * p,
        ;
        lemma_fundamental_div_mod_converse(f as int, p, 2 * q + 1, r - p);
        assert(f as nat / pow2(i) == 2 * q + 1);
        lemma_fundamental_div_mod_converse((2 * q + 1), 2, q, 1);
    } else {
        assert(f as int == p * (2 * q) + r) by (nonlinear_arith)
            requires
                f as int == p1 * q + r,
                p1 == 2 * p,
        ;
        lemma_fundamental_div_mod_converse(f as int, p, 2 * q, r);
        assert(f as nat / pow2(i) == 2 * q);
        lemma_fundamental_div_mod_converse((2 * q) as int, 2, q, 0);
    }
}

/// Trailing ones never outnumber the digits, and filling every digit with
/// ones is the only way to reach the digit count.
pub proof fn lemma_trailing_ones_le_bit_len(f: nat)
    ensures
        trailing_ones(f) <= bit_len(f),
        f > 0 && trailing_ones(f) == bit_len(f) ==> f == pow2(bit_len(f)) - 1,
    decreases f,
{
    if f > 0 {
        lemma_trailing_ones_le_bit_len(f / 2);
        if trailing_ones(f) == bit_len(f) {
            lemma_trailing_ones_mod(f);
            lemma_bit_len_bounds(f);
            lemma_small_mod(f, pow2(bit_len(f)));
        }
    }
}

/// Dropping a prefix of the leaves does not change the climb: its roots only
/// read the suffix near the new element.
pub proof fn lemma_climb_suffix(l: Seq<RpoDigest>, m: int, e: RpoDigest, t: nat)
    requires
        0 <= m <= l.len(),
        pow2(t) - 1 <= l.len() - m,
    ensures
        climb_seq(l.skip(m), e, t) == climb_seq(l, e, t),
        forall|i: nat| i <= t ==> #[trigger] climb_root(l.skip(m), e, i) == climb_root(l, e, i),
{
    assert forall|i: nat| i <= t implies #[trigger] climb_root(l.skip(m), e, i) == climb_root(
        l,
        e,
        i,
    ) by {
        lemma_pow2_le(i, t);
        lemma_pow2_pos(i);
        let l2 = l.skip(m);
        assert(l2.skip(l2.len() - (pow2(i) - 1)) =~= l.skip(l.len() - (pow2(i) - 1)));
    }
    assert(climb_seq(l.skip(m), e, t) =~= climb_seq(l, e, t));
}

/// Appending to a forest whose every digit is set builds one perfect tree:
/// its postorder nodes are the old buffer followed by the climb.
proof fn lemma_tree_push_all_ones(l: Seq<RpoDigest>, e: RpoDigest, k: nat)
    requires
        l.len() == pow2(k) - 1,
    ensures
        tree_nodes(l.push(e)) == forest_nodes(l) + climb_seq(l, e, k),
        tree_root(l.push(e)) == climb_root(l, e, k),
    decreases k,
{
    lemma_pow2_pos(k);
    let lp = l.push(e);
    assert(climb_root(l, e, k) == tree_root(l.skip(0).push(e)));
    assert(l.skip(0) =~= l);
    if k == 0 {
        assert(pow2(0) == 1) by {
            vstd::arithmetic::power2::lemma2_to64();
        }
        assert(lp.len() == 1);
        assert(tree_nodes(lp) == lp);
        assert(forest_nodes(l) == Seq::<RpoDigest>::empty());
        assert(climb_seq(l, e, 0) =~= lp);
    } else {
        lemma_pow2_unfold(k);
        let h = pow2((k - 1) as nat) as int;
        lemma_pow2_pos((k - 1) as nat);
        assert(lp.len() == 2 * h);
        assert(lp.len() as int / 2 == h) by {
            lemma_div_multiples_vanish(h, 2);
        }
        assert(lp.len() > 1);
        assert(tree_nodes(lp) == tree_nodes(lp.take(h)) + tree_nodes(lp.skip(h)) + seq![
            tree_root(lp),
        ]);
        assert(lp.take(h) =~= l.take(h));
        assert(lp.skip(h) =~= l.skip(h).push(e));
        assert(l.skip(h).len() == pow2((k - 1) as nat) - 1);
        lemma_tree_push_all_ones(l.skip(h), e, (k - 1) as nat);
        lemma_climb_suffix(l, h, e, (k - 1) as nat);
        // the old buffer is the top half tree followed by the all-ones rest
        assert(forest_nodes(l) == tree_nodes(l.take(h)) + forest_nodes(l.skip(h))) by {
            lemma_bit_len_eq(l.len(), (k - 1) as nat);
            assert(top_tree(l.len()) == pow2((k - 1) as nat));
        }
        assert(tree_root(lp) == merge_spec(tree_root(lp.take(h)), tree_root(lp.skip(h))));
        assert(tree_root(lp.skip(h)) == climb_root(l, e, (k - 1) as nat));
        assert(climb_root(l, e, k) == tree_root(lp));
        assert(climb_seq(l, e, k) =~= climb_seq(l, e, (k - 1) as nat) + seq![
            climb_root(l, e, k),
        ]);
        assert(tree_nodes(lp) =~= forest_nodes(l) + climb_seq(l, e, k));
    }
}

/// What one append does to the node buffer: the old nodes stay in place and
/// the climb of the new element follows them.
pub proof fn lemma_forest_push(l: Seq<RpoDigest>, e: RpoDigest)
    ensures
        forest_nodes(l.push(e)) == forest_nodes(l) + climb_seq(l, e, trailing_ones(l.len())),
    decreases l.len(),
{
    let f = l.len();
    let t = trailing_ones(f);
    let lp = l.push(e);
    if f == 0 {
        assert(t == 0);
        assert(pow2(0) == 1 && pow2(1) == 2) by {
            vstd::arithmetic::power2::lemma2_to64();
        }
        lemma_tree_push_all_ones(l, e, 0);
        assert(forest_nodes(lp) == tree_nodes(lp)) by {
            lemma_bit_len_eq(1, 0);
            assert(lp.take(1) =~= lp);
            assert(lp.skip(1) =~= Seq::<RpoDigest>::empty());
            assert(tree_nodes(lp) + forest_nodes(Seq::<RpoDigest>::empty()) =~= tree_nodes(lp));
        }
    } else {
        lemma_bit_len_bounds(f);
        lemma_trailing_ones_le_bit_len(f);
        let bl = bit_len(f);
        if t == bl {
            // every digit set: the whole forest merges into one tree
            assert(f == pow2(bl) - 1);
            lemma_tree_push_all_ones(l, e, bl);
            assert(forest_nodes(lp) == tree_nodes(lp)) by {
                lemma_pow2_pos(bl);
                lemma_pow2_strictly_increases(bl, bl + 1);
                lemma_bit_len_eq(pow2(bl), bl);
                assert(lp.len() == pow2(bl));
                assert(lp.take(lp.len() as int) =~= lp);
                assert(lp.skip(lp.len() as int) =~= Seq::<RpoDigest>::empty());
                assert(tree_nodes(lp) + forest_nodes(Seq::<RpoDigest>::empty()) =~= tree_nodes(
                    lp,
                ));
            }
        } else {
            assert(t < bl);
            let tt = top_tree(f) as int;
            lemma_top_split(f);
            lemma_pow2_pos((bl - 1) as nat);
            // the top tree is untouched: the new leaf count keeps its digit count
            assert(bit_len(f + 1) == bl && top_tree(f + 1) == pow2((bl - 1) as nat)) by {
                assert(f + 1 < pow2(bl)) by {
                    if f + 1 == pow2(bl) {
                        lemma_pow2_strictly_increases(bl, bl + 1);
                        lemma_small_mod(f, pow2(bl + 1));
                        lemma_trailing_ones_from_mod(f, bl);
                        assert(false);
                    }
                }
                lemma_bit_len_eq(f + 1, (bl - 1) as nat);
            }
            assert(forest_nodes(lp) == tree_nodes(lp.take(tt)) + forest_nodes(lp.skip(tt)));
            assert(lp.take(tt) =~= l.take(tt));
            assert(lp.skip(tt) =~= l.skip(tt).push(e));
            lemma_forest_push(l.skip(tt), e);
            // the tail keeps the same trailing ones as the whole forest
            assert(trailing_ones(l.skip(tt).len()) == t) by {
                let f2 = (f - tt) as nat;
                lemma_trailing_ones_mod(f);
                assert(t + 1 <= (bl - 1) as nat) by {
                    if t + 1 == bl {
                        // bit t clear yet bit t set: digits 0..t-1 are ones and
                        // the top digit is bl - 1 == t
                        lemma_bit_set_trailing(f, t);
                        crate::forest::lemma_highest_bit_set(f, t);
                        assert(false);
                    }
                }
                lemma_pow2_adds(t + 1, ((bl - 1) - (t + 1)) as nat);
                lemma_pow2_pos(t + 1);
                lemma_pow2_pos(((bl - 1) - (t + 1)) as nat);
                assert(f % pow2(t + 1) == f2 % pow2(t + 1)) by {
                    assert(tt == pow2((bl - 1) as nat) as int);
                    assert((t + 1) + (((bl - 1) - (t + 1)) as nat) == (bl - 1) as nat);
                    assert(pow2((bl - 1) as nat) == pow2(t + 1) * pow2(
                        ((bl - 1) - (t + 1)) as nat,
                    ));
                    assert(pow2(t + 1) * (-(pow2(((bl - 1) - (t + 1)) as nat) as int)) + f == f2)
                        by (nonlinear_arith)
                        requires
                            f2 == f - tt,
                            tt == pow2((bl - 1) as nat) as int,
                            pow2((bl - 1) as nat) == pow2(t + 1) * pow2(((bl - 1) - (t + 1)) as nat),
                    ;
                    lemma_mod_multiples_vanish(
                        -(pow2(((bl - 1) - (t + 1)) as nat) as int),
                        f as int,
                        pow2(t + 1) as int,
                    );
                    vstd::arithmetic::mul::lemma_mul_is_commutative(
                        pow2(t + 1) as int,
                        pow2(((bl - 1) - (t + 1)) as nat) as int,
                    );
                }
                lemma_trailing_ones_from_mod(f2, t);
            }
            assert(pow2(t) - 1 <= f - tt) by {
                lemma_trailing_ones_mod((f - tt) as nat);
            }
            lemma_climb_suffix(l, tt, e, t);
            assert(forest_nodes(lp) =~= forest_nodes(l) + climb_seq(l, e, t));
        }
    }
}

/// A power of two has exactly one set bit.
pub proof fn lemma_pop_count_pow2(i: nat)
    ensures
        pop_count(pow2(i)) == 1,
{
    lemma_pop_count_shift(1, i);
    reveal_with_fuel(pop_count, 3);
    assert(pop_count(1nat) == 1);
    assert(1 * pow2(i) == pow2(i));
}

/// One merge step of the climb: the next root merges the root of the forest
/// tree at the current depth with the climb root built so far.
pub proof fn lemma_climb_step(l: Seq<RpoDigest>, e: RpoDigest, i: nat)
    requires
        i < trailing_ones(l.len()),
    ensures
        ({
            let f = l.len();
            let lo = clear_low(f, i + 1);
            &&& bit_set(f, i)
            &&& lo == f - (pow2(i + 1) - 1)
            &&& pow2(i + 1) - 1 <= f
            &&& climb_root(l, e, i + 1) == merge_spec(
                tree_root(l.subrange(lo as int, lo + pow2(i) as int)),
                climb_root(l, e, i),
            )
        }),
{
    let f = l.len();
    let t = trailing_ones(f);
    let lo = clear_low(f, i + 1);
    lemma_pow2_pos(i);
    lemma_pow2_pos(i + 1);
    lemma_pow2_pos(t);
    lemma_pow2_unfold(i + 1);
    lemma_trailing_ones_mod(f);
    lemma_bit_set_trailing(f, i);
    assert(f % pow2(i + 1) == pow2(i + 1) - 1) by {
        lemma_mod_of_mod(f, i + 1, t);
        assert(f % pow2(t) == (pow2(t) - 1) as nat);
        lemma_all_ones_mod(t, i + 1);
    }
    crate::forest::lemma_clear_low_le(f, i + 1);
    assert(lo == f - (pow2(i + 1) - 1));
    assert(pow2(i + 1) <= pow2(t)) by {
        lemma_pow2_le(i + 1, t);
    }
    let s1 = l.skip(f - (pow2(i + 1) - 1)).push(e);
    assert(s1.len() == pow2(i + 1));
    assert(s1.len() as int / 2 == pow2(i) as int) by {
        lemma_div_multiples_vanish(pow2(i) as int, 2);
    }
    assert(s1.len() > 1);
    assert(tree_root(s1) == merge_spec(
        tree_root(s1.take(pow2(i) as int)),
        tree_root(s1.skip(pow2(i) as int)),
    ));
    assert(s1.take(pow2(i) as int) =~= l.subrange(lo as int, lo + pow2(i) as int));
    assert(s1.skip(pow2(i) as int) =~= l.skip(f - (pow2(i) - 1)).push(e));
    assert(climb_root(l, e, i + 1) == tree_root(s1));
}

/// Including the tree at a set bit adds its node count to the prefix total.
pub proof fn lemma_count_nodes_step(f: nat, i: nat)
    requires
        bit_set(f, i),
    ensures
        count_nodes(clear_low(f, i)) == count_nodes(clear_low(f, i + 1)) + 2 * pow2(i) - 1,
        count_nodes(clear_low(f, i)) >= 1,
{
    crate::forest::lemma_clear_low_step(f, i);
    let m = clear_low(f, i + 1);
    let q = f / pow2(i + 1);
    lemma_pow2_pos(i);
    lemma_pow2_pos(i + 1);
    lemma_pow2_unfold(i + 1);
    assert(clear_low(f, i) == m + pow2(i));
    assert(pop_count((m + pow2(i)) as nat) == 1 + pop_count(m)) by {
        assert(m == q * pow2(i + 1));
        assert(m + pow2(i) == (2 * q + 1) * pow2(i)) by (nonlinear_arith)
            requires
                m == q * pow2(i + 1),
                pow2(i + 1) == 2 * pow2(i),
        ;
        lemma_pop_count_shift(2 * q + 1, i);
        lemma_pop_count_shift(q, i + 1);
        assert(pop_count(2 * q + 1) == 1 + pop_count(q)) by {
            lemma_fundamental_div_mod_converse((2 * q + 1) as int, 2, q as int, 1);
            assert((2 * q + 1) as nat % 2 == 1);
            assert((2 * q + 1) as nat / 2 == q);
        }
        assert(pop_count(q * pow2(i + 1)) == pop_count(q));
    }
    lemma_count_nodes_bounds((m + pow2(i)) as nat);
}

/// `(n - 2 * c) / 2 == n / 2 - c`.
proof fn lemma_div_multiples_vanish_general(n: int, c: int)
    requires
        0 <= n,
    ensures
        (n - 2 * c) / 2 == n / 2 - c,
{
    lemma_fundamental_div_mod(n, 2);
    assert(n - 2 * c == 2 * (n / 2 - c) + n % 2);
    vstd::arithmetic::div_mod::lemma_div_multiples_vanish_fancy(n / 2 - c, n % 2, 2);
}

} // verus!
