//! The set of principals whose attested writes are accepted.

use vstd::prelude::*;
use crate::record::bytes_equal;

verus! {

/// The validator set, kept as the list it was given. A principal listed
/// twice is a member like any other.
#[derive(Clone, Debug, PartialEq)]
pub struct ValidatorRegistry {
    pub validators: Vec<[u8; 32]>,
}

impl View for ValidatorRegistry {
    type V = Seq<[u8; 32]>;

    open spec fn view(&self) -> Seq<[u8; 32]> {
        self.validators@
    }
}

impl ValidatorRegistry {
    /// A registry that holds exactly `validators`.
    pub fn new(validators: Vec<[u8; 32]>) -> (r: ValidatorRegistry)
        ensures
            r@ == validators@,
    {
        ValidatorRegistry { validators }
    }

    /// Replaces the whole set by `validators`, kept as given.
    pub fn set(&mut self, validators: Vec<[u8; 32]>)
        ensures
            final(self)@ == validators@,
    {
        self.validators = validators;
    }

    /// Whether `principal` is listed, byte for byte.
    pub fn contains(&self, principal: &[u8; 32]) -> (r: bool)
        ensures
            r == self@.contains(*principal),
    {
        let mut i: usize = 0;
        while i < self.validators.len()
            invariant
                0 <= i <= self.validators.len(),
                forall|j: int| 0 <= j < i ==> self.validators@[j] != *principal,
            decreases self.validators.len() - i,
        {
            if bytes_equal(&self.validators[i], principal) {
                assert(self.validators@[i as int] == *principal);
                return true;
            }
            i += 1;
        }
        false
    }
}

} // verus!
