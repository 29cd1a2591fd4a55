//! Errors reported for malformed public inputs and outputs.
use vstd::prelude::*;

verus! {

/// A public input value that cannot be accepted.
#[derive(Clone, Debug)]
pub enum InputError {
    /// The value does not fit the base field; the text names the context.
    NotFieldElement(u64, &'static str),
    /// The advice root repeats one already present.
    DuplicateAdviceRoot([u8; 32]),
}

impl InputError {
    /// A short description of the error.
    pub fn message(&self) -> (r: &'static str)
        ensures
            self is NotFieldElement ==> r@ == "value is not a valid field element"@,
            self is DuplicateAdviceRoot ==> r@
                == "advice root is a duplicate of the current merkle set"@,
    {
        match self {
            InputError::NotFieldElement(_, _) => "value is not a valid field element",
            InputError::DuplicateAdviceRoot(_) => "advice root is a duplicate of the current merkle set",
        }
    }
}

/// A program output that cannot be accepted.
#[derive(Clone, Debug)]
pub enum OutputError {
    /// An overflow-table address outside the base field.
    InvalidOverflowAddress(u64),
    /// An overflow-table address list of the wrong length: actual, expected.
    InvalidOverflowAddressLength(usize, usize),
    /// A stack element outside the base field.
    InvalidStackElement(u64),
}

impl OutputError {
    /// A short description of the error.
    pub fn message(&self) -> (r: &'static str)
        ensures
            self is InvalidOverflowAddress ==> r@
                == "overflow address is not a valid field element"@,
            self is InvalidOverflowAddressLength ==> r@
                == "overflow address list has an unexpected length"@,
            self is InvalidStackElement ==> r@ == "stack element is not a valid field element"@,
    {
        match self {
            OutputError::InvalidOverflowAddress(_) => "overflow address is not a valid field element",
            OutputError::InvalidOverflowAddressLength(_, _) => "overflow address list has an unexpected length",
            OutputError::InvalidStackElement(_) => "stack element is not a valid field element",
        }
    }
}

} // verus!
