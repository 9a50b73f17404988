//! The failures an invocation can end in.

use vstd::prelude::*;

verus! {

/// Why an operation was refused. Every failure leaves the buffers as they were.
#[derive(Clone, Copy, Debug, PartialEq, Eq, Structural)]
pub enum LedgerError {
    /// The buffer holds nothing but zero bytes.
    Uninitialized,
    /// The buffer to initialise holds a non-zero byte.
    AlreadyInitialized,
    /// An all-zero buffer that nevertheless reads as a ledger.
    InvalidState,
    /// The caller did not sign.
    MissingSignature,
    /// The caller signed but does not own the ledger.
    NotOwner,
    /// The batch would occupy more slots than the ledger has.
    CapacityExceeded,
    /// The proof is shorter than its fixed tail.
    MalformedProof,
    /// The identity named by the proof is not in the registry.
    UnauthorizedValidator,
    /// The registry buffer does not read as a registry.
    InvalidRegistryState,
    /// The requested symbol has no record in the ledger consulted.
    PriceNotFound,
    /// The invocation names fewer accounts than the command uses.
    NotEnoughAccounts,
    /// The buffer does not read as the expected value.
    DecodeError,
    /// The new value cannot be written into the buffer.
    EncodeError,
}

impl LedgerError {
    /// The number under which a host reports the refusals it has no name of
    /// its own for; the others have none.
    pub open spec fn custom_code(self) -> Option<u32> {
        match self {
            LedgerError::NotOwner => Some(112u32),
            LedgerError::DecodeError => Some(113u32),
            LedgerError::InvalidState => Some(114u32),
            LedgerError::PriceNotFound => Some(115u32),
            LedgerError::CapacityExceeded => Some(116u32),
            LedgerError::InvalidRegistryState => Some(997u32),
            LedgerError::MalformedProof => Some(998u32),
            LedgerError::UnauthorizedValidator => Some(999u32),
            _ => None,
        }
    }

    /// The number to report this refusal under, if it needs one.
    pub fn code(&self) -> (r: Option<u32>)
        ensures
            r == self.custom_code(),
    {
        match self {
            LedgerError::NotOwner => Some(112),
            LedgerError::DecodeError => Some(113),
            LedgerError::InvalidState => Some(114),
            LedgerError::PriceNotFound => Some(115),
            LedgerError::CapacityExceeded => Some(116),
            LedgerError::InvalidRegistryState => Some(997),
            LedgerError::MalformedProof => Some(998),
            LedgerError::UnauthorizedValidator => Some(999),
            _ => None,
        }
    }
}

} // verus!
