//! Symbols, price records and the principals that sign for them.

use vstd::prelude::*;

verus! {

/// The reserved symbol of an unoccupied slot: eight zero bytes.
pub open spec fn zero_symbol() -> [u8; 8] {
    vstd::array::spec_array_fill_for_copy_type::<u8, 8>(0u8)
}

/// One quoted instrument. A record whose symbol is all zero is "empty".
#[derive(Clone, Copy, Debug, PartialEq, Eq)]
pub struct Price {
    pub symbol: [u8; 8],
    pub rate: u64,
    pub last_updated: u64,
    pub request_id: u64,
}

/// The record that fills every unoccupied slot.
pub open spec fn empty_price() -> Price {
    Price { symbol: zero_symbol(), rate: 0, last_updated: 0, request_id: 0 }
}

/// The single-slot ledger: an owner and the latest quoted value.
#[derive(Clone, Copy, Debug, PartialEq, Eq)]
pub struct SimplePriceDB {
    pub owner: [u8; 32],
    pub latest_symbol: [u8; 8],
    pub latest_price: u64,
}

/// A principal named by an invocation, with the host's word on whether it signed.
#[derive(Clone, Copy, Debug, PartialEq, Eq)]
pub struct Caller {
    pub key: [u8; 32],
    pub is_signer: bool,
}

/// Compares two byte arrays of equal length.
pub fn bytes_equal<const N: usize>(a: &[u8; N], b: &[u8; N]) -> (r: bool)
    ensures
        r == (*a == *b),
{
    let mut i: usize = 0;
    while i < N
        invariant
            0 <= i <= N,
            forall|k: int| 0 <= k < i ==> a[k] == b[k],
        decreases N - i,
    {
        if a[i] != b[i] {
            return false;
        }
        i += 1;
    }
    assert(*a =~= *b);
    true
}

impl Price {
    /// The empty sentinel record.
    pub fn empty() -> (r: Price)
        ensures
            r == empty_price(),
    {
        Price { symbol: [0u8; 8], rate: 0, last_updated: 0, request_id: 0 }
    }

    pub open spec fn is_empty_spec(&self) -> bool {
        self.symbol == zero_symbol()
    }

    /// Whether this record is the marker of an unoccupied slot.
    pub fn is_empty(&self) -> (r: bool)
        ensures
            r == self.is_empty_spec(),
    {
        let zero = [0u8; 8];
        bytes_equal(&self.symbol, &zero)
    }
}

} // verus!
