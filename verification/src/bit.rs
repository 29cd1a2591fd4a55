//! Iteration over the set bit positions of an unsigned integer.
use vstd::arithmetic::div_mod::{lemma_div_denominator, lemma_fundamental_div_mod};
use vstd::arithmetic::power2::{lemma_pow2_pos, pow2};
use vstd::prelude::*;

use crate::model::{bit_len, bit_set, low_bit};

verus! {

/// Yields the positions of the set bits of a value, either from the lowest
/// set bit upwards with [`Self::next`], or from the highest downwards with
/// [`Self::next_back`]; each yielded bit is removed from the value, and the
/// iteration ends when the value reaches zero.
pub struct TrueBitPositionIterator {
    /// The bits not yet yielded.
    pub value: usize,
}

impl TrueBitPositionIterator {
    /// Starts an iteration over the set bits of `value`.
    pub fn new(value: usize) -> (r: TrueBitPositionIterator)
        ensures
            r.value == value,
    {
        TrueBitPositionIterator { value }
    }

    /// Yields the lowest remaining set bit position, or `None` when none is
    /// left.
    pub fn next(&mut self) -> (r: Option<u32>)
        ensures
            old(self).value == 0 ==> r is None && final(self).value == 0,
            old(self).value != 0 ==> ({
                let b = low_bit(old(self).value as nat);
                &&& r == Some(b as u32)
                &&& bit_set(old(self).value as nat, b)
                &&& final(self).value as nat == old(self).value - pow2(b)
            }),
    {
        if self.value == 0 {
            return None;
        }
        let ghost n = self.value as nat;
        let mut x: usize = self.value;
        let mut tz: u32 = 0;
        proof {
            assert(pow2(0) == 1) by {
                vstd::arithmetic::power2::lemma2_to64();
            }
            crate::forest::lemma_usize_max_pow2();
        }
        while x % 2 == 0
            invariant
                x > 0,
                x as nat == n / pow2(tz as nat),
                low_bit(n) == tz + low_bit(x as nat),
                pow2(tz as nat) <= n,
                n <= usize::MAX,
                usize::MAX as nat + 1 == pow2(usize::BITS as nat),
            decreases x,
        {
            proof {
                lemma_pow2_pos(tz as nat);
                lemma_pow2_pos(tz as nat + 1);
                vstd::arithmetic::power2::lemma_pow2_unfold(tz as nat + 1);
                lemma_div_denominator(n as int, pow2(tz as nat) as int, 2);
                lemma_fundamental_div_mod(x as int, 2);
                assert(x / 2 >= 1);
                assert((x / 2) as nat == n / pow2(tz as nat + 1));
                assert(pow2(tz as nat + 1) <= n) by {
                    let p = pow2(tz as nat + 1) as int;
                    lemma_fundamental_div_mod(n as int, p);
                    vstd::arithmetic::div_mod::lemma_mod_bound(n as int, p);
                    assert(p * 1 <= p * (n as int / p)) by (nonlinear_arith)
                        requires
                            p > 0,
                            1 <= n as int / p,
                    ;
                }
                assert(tz as nat + 1 <= usize::BITS as nat) by {
                    if tz as nat + 1 > usize::BITS as nat {
                        crate::model::lemma_pow2_le(usize::BITS as nat, tz as nat);
                        assert(false);
                    }
                }
            }
            x = x / 2;
            tz = tz + 1;
        }
        proof {
            assert(low_bit(x as nat) == 0);
            assert(bit_set(n, tz as nat));
            assert(tz < usize::BITS) by {
                if tz >= usize::BITS {
                    crate::model::lemma_pow2_le(usize::BITS as nat, tz as nat);
                }
            }
            vstd::bits::lemma_usize_pow2_no_overflow(tz as nat);
            vstd::bits::lemma_usize_shl_is_mul(1usize, tz as usize);
        }
        let bit: usize = 1usize << (tz as usize);
        proof {
            crate::forest::lemma_clear_bit(self.value, bit, tz as nat);
        }
        self.value = self.value ^ bit;
        Some(tz)
    }

    /// Yields the highest remaining set bit position, or `None` when none is
    /// left.
    pub fn next_back(&mut self) -> (r: Option<u32>)
        ensures
            old(self).value == 0 ==> r is None && final(self).value == 0,
            old(self).value != 0 ==> ({
                let b = (bit_len(old(self).value as nat) - 1) as nat;
                &&& r == Some(b as u32)
                &&& bit_set(old(self).value as nat, b)
                &&& final(self).value as nat == old(self).value - pow2(b)
            }),
    {
        if self.value == 0 {
            return None;
        }
        let hb = crate::forest::highest_bit(self.value);
        proof {
            crate::forest::lemma_usize_max_pow2();
            vstd::bits::lemma_usize_pow2_no_overflow(hb as nat);
            vstd::bits::lemma_usize_shl_is_mul(1usize, hb as usize);
        }
        let bit: usize = 1usize << (hb as usize);
        proof {
            crate::forest::lemma_clear_bit(self.value, bit, hb as nat);
        }
        self.value = self.value ^ bit;
        Some(hb)
    }
}

} // verus!
