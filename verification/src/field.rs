//! The base field element of the digest type.
//!
//! Elements are kept in canonical form: a single `u64` strictly below the
//! field modulus `2^64 - 2^32 + 1`.  The hash primitive operates on these
//! canonical values; this module only models the element as a number.
use vstd::prelude::*;

verus! {

/// Modulus of the 64-bit base field: `2^64 - 2^32 + 1`.
pub const MODULUS: u64 = 0xffff_ffff_0000_0001;

/// Number of field elements in a word.
pub const WORD_SIZE: usize = 4;

/// A base field element, stored as its canonical integer representation.
#[derive(Debug, Clone, Copy, PartialEq, Eq, Structural, Hash)]
pub struct Felt {
    /// Canonical representation; always below [`MODULUS`] for elements built
    /// through [`Felt::new`].
    pub value: u64,
}

impl Felt {
    /// Returns the field element representing `value`, reduced into canonical
    /// form.
    pub fn new(value: u64) -> (r: Felt)
        ensures
            r.value == value % MODULUS,
            r.value < MODULUS,
    {
        Felt { value: value % MODULUS }
    }

    /// The additive identity of the field.
    pub fn zero() -> (r: Felt)
        ensures
            r.value == 0,
    {
        Felt { value: 0 }
    }

    /// Returns the canonical integer representation of this element.
    pub fn as_int(&self) -> (r: u64)
        ensures
            r == self.value,
    {
        self.value
    }

    /// Whether the stored representation is canonical.
    pub open spec fn is_canonical(self) -> bool {
        self.value < MODULUS
    }
}

/// A group of four field elements.
pub type Word = [Felt; 4];

} // verus!
