//! The hash primitive behind the accumulator, consumed through its interface
//! alone: merging two digests and hashing a sequence of field elements.
//!
//! Both operations are deterministic functions of their argument values, so
//! each is given a name here and every contract in the crate speaks of these
//! names.  The permutation itself lives in an outside crate.
use vstd::prelude::*;

use crate::digest::RpoDigest;
use crate::field::Felt;
use winter_crypto::{ElementHasher, Hasher};
use winter_math::fields::f64::BaseElement;

verus! {

/// The digest obtained by merging two digests with the hash primitive.
pub uninterp spec fn merge_spec(left: RpoDigest, right: RpoDigest) -> RpoDigest;

/// The digest obtained by hashing a sequence of field elements.
pub uninterp spec fn hash_elements_spec(elements: Seq<Felt>) -> RpoDigest;

/// The Rescue-Prime hash function over the 64-bit base field.
pub struct Rpo256;

impl Rpo256 {
    /// Merges two digests into one.
    ///
    /// Relies on `winter_crypto::hashers::Rp64_256::merge`: one permutation
    /// call over the eight field elements of the two digests; the result
    /// depends on those element values alone, and its elements come back in
    /// canonical form.
    #[verifier::external_body]
    pub fn merge(values: &[RpoDigest; 2]) -> (r: RpoDigest)
        ensures
            r == merge_spec(values[0], values[1]),
            r.is_canonical(),
    {
        let conv = |d: &RpoDigest| <winter_crypto::hashers::Rp64_256 as Hasher>::Digest::new(
            [BaseElement::new(d.0[0].value), BaseElement::new(d.0[1].value),
             BaseElement::new(d.0[2].value), BaseElement::new(d.0[3].value)]);
        let out = winter_crypto::hashers::Rp64_256::merge(&[conv(&values[0]), conv(&values[1])]);
        let e = out.as_elements();
        RpoDigest([Felt::new(e[0].as_int()), Felt::new(e[1].as_int()),
                   Felt::new(e[2].as_int()), Felt::new(e[3].as_int())])
    }

    /// Hashes a sequence of field elements into one digest.
    ///
    /// Relies on `winter_crypto::hashers::Rp64_256::hash_elements`: a sponge
    /// over the element values alone, elements of the result canonical.
    #[verifier::external_body]
    pub fn hash_elements(elements: &[Felt]) -> (r: RpoDigest)
        ensures
            r == hash_elements_spec(elements@),
            r.is_canonical(),
    {
        let mut elems: Vec<BaseElement> = Vec::with_capacity(elements.len());
        for e in elements.iter() {
            elems.push(BaseElement::new(e.value));
        }
        let out = <winter_crypto::hashers::Rp64_256 as ElementHasher>::hash_elements(&elems);
        let e = out.as_elements();
        RpoDigest([Felt::new(e[0].as_int()), Felt::new(e[1].as_int()),
                   Felt::new(e[2].as_int()), Felt::new(e[3].as_int())])
    }
}

} // verus!
