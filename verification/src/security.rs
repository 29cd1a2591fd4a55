//! Conjectured security estimate for proof parameters.
use vstd::arithmetic::power2::pow2;
use vstd::prelude::*;

use crate::model::{bit_len, low_bit, pop_count};

verus! {

/// Queries contribute their grinding factor only above this floor.
pub const GRINDING_CONTRIBUTION_FLOOR: u32 = 80;

/// The conjectured security level, in bits, as a function of the proof
/// parameters: the field contributes its size shrunk by the trace length,
/// the queries contribute the blowup's bit size per query plus grinding once
/// adequate, and the hash caps everything at its collision resistance.
pub open spec fn conjectured_security(
    base_field_bits: nat,
    extension_degree: nat,
    blowup_factor: nat,
    num_queries: nat,
    grinding_factor: nat,
    trace_domain_size: nat,
    collision_resistance: nat,
) -> int {
    let field_security = base_field_bits * extension_degree - low_bit(trace_domain_size);
    let per_query = (bit_len(blowup_factor) - 1) * num_queries;
    let query_security: int = if per_query >= GRINDING_CONTRIBUTION_FLOOR {
        per_query + grinding_factor
    } else {
        per_query
    };
    let lesser: int = if field_security <= query_security {
        field_security
    } else {
        query_security
    };
    if lesser - 1 <= collision_resistance {
        lesser - 1
    } else {
        collision_resistance as int
    }
}

/// The number of low zero bits of a positive value.
fn trailing_zeros_u64(n: u64) -> (r: u32)
    requires
        n > 0,
    ensures
        r == low_bit(n as nat),
        r < 64,
{
    proof {
        crate::forest::lemma_usize_max_pow2();
        assert(pow2(0) == 1) by {
            vstd::arithmetic::power2::lemma2_to64();
        }
    }
    let ghost big = n as nat;
    let mut x: u64 = n;
    let mut tz: u32 = 0;
    while x % 2 == 0
        invariant
            x > 0,
            x as nat == big / pow2(tz as nat),
            low_bit(big) == tz + low_bit(x as nat),
            pow2(tz as nat) <= big,
            big <= u64::MAX,
            u64::MAX as nat + 1 == pow2(64),
        decreases x,
    {
        proof {
            vstd::arithmetic::power2::lemma_pow2_pos(tz as nat);
            vstd::arithmetic::power2::lemma_pow2_pos(tz as nat + 1);
            vstd::arithmetic::power2::lemma_pow2_unfold(tz as nat + 1);
            vstd::arithmetic::div_mod::lemma_div_denominator(
                big as int,
                pow2(tz as nat) as int,
                2,
            );
            vstd::arithmetic::div_mod::lemma_fundamental_div_mod(x as int, 2);
            assert(x / 2 >= 1);
            assert((x / 2) as nat == big / pow2(tz as nat + 1));
            assert(pow2(tz as nat + 1) <= big) by {
                let p = pow2(tz as nat + 1) as int;
                vstd::arithmetic::div_mod::lemma_fundamental_div_mod(big as int, p);
                vstd::arithmetic::div_mod::lemma_mod_bound(big as int, p);
                assert(p * 1 <= p * (big as int / p)) by (nonlinear_arith)
                    requires
                        p > 0,
                        1 <= big as int / p,
                ;
            }
            assert(tz as nat + 1 <= 64) by {
                if tz as nat + 1 > 64 {
                    crate::model::lemma_pow2_le(64, tz as nat);
                    assert(false);
                }
            }
        }
        x = x / 2;
        tz = tz + 1;
    }
    proof {
        assert(low_bit(x as nat) == 0);
        if tz >= 64 {
            crate::model::lemma_pow2_le(64, tz as nat);
        }
    }
    tz
}

/// Computes the conjectured security level for the given proof parameters,
/// in bits.
///
/// The trace domain must be non-empty, the blowup factor positive, and the
/// intermediate quantities must fit the word; parameters that would make the
/// estimate negative are left out.
pub fn get_conjectured_security(
    base_field_bits: u32,
    extension_degree: u32,
    blowup_factor: usize,
    num_queries: usize,
    grinding_factor: u32,
    trace_domain_size: u64,
    collision_resistance: u32,
) -> (r: u32)
    requires
        trace_domain_size > 0,
        blowup_factor > 0,
        base_field_bits * extension_degree <= u32::MAX,
        base_field_bits * extension_degree >= low_bit(trace_domain_size as nat) + 1,
        (bit_len(blowup_factor as nat) - 1) * num_queries <= u32::MAX - grinding_factor,
        (bit_len(blowup_factor as nat) - 1) * num_queries >= 1,
    ensures
        r == conjectured_security(
            base_field_bits as nat,
            extension_degree as nat,
            blowup_factor as nat,
            num_queries as nat,
            grinding_factor as nat,
            trace_domain_size as nat,
            collision_resistance as nat,
        ),
{
    // compute max security we can get for a given field size
    let field_size = base_field_bits * extension_degree;
    let field_security = field_size - trailing_zeros_u64(trace_domain_size);
    // compute security we get by executing multiple query rounds
    let security_per_query = crate::forest::highest_bit(blowup_factor);
    proof {
        crate::forest::lemma_usize_max_pow2();
        crate::forest::lemma_bit_len_le(num_queries as nat, usize::BITS as nat);
        assert(security_per_query as nat == bit_len(blowup_factor as nat) - 1);
        assert(security_per_query as nat * num_queries as nat <= u32::MAX - grinding_factor);
    }
    let mut query_security = mul_u32_bounded(security_per_query, num_queries);
    // include grinding factor contributions only for proofs of adequate security
    if query_security >= GRINDING_CONTRIBUTION_FLOOR {
        query_security = query_security + grinding_factor;
    }
    let lesser = if field_security <= query_security {
        field_security
    } else {
        query_security
    };
    let capped = lesser - 1;
    if capped <= collision_resistance {
        capped
    } else {
        collision_resistance
    }
}

/// A product known to fit 32 bits.
fn mul_u32_bounded(a: u32, b: usize) -> (r: u32)
    requires
        a * b <= u32::MAX,
    ensures
        r == a * b,
{
    proof {
        assert(b <= u32::MAX || a == 0) by {
            if b > u32::MAX && a > 0 {
                assert(a * b >= 1 * b) by (nonlinear_arith)
                    requires
                        a >= 1,
                        b >= 0,
                ;
            }
        }
    }
    if a == 0 {
        0
    } else {
        a * (b as u32)
    }
}

} // verus!
