//! The single-slot ledger's own owner-gated operations: its creation, the
//! transfer of its ownership, and the copying of one rate out of a ledger.

use vstd::prelude::*;
use crate::codec::{db_bytes, db_of, decode_db, decode_ledger, encode_db, sound_ledger_of};
use crate::error::LedgerError;
use crate::ledger::{find_symbol, holds};
use crate::program::{all_zero, is_initialized, settled, store, stored};
use crate::record::{bytes_equal, zero_symbol, Caller, Price, SimplePriceDB};

verus! {

/// What creating the single-slot ledger gives: the buffer must never have
/// been written and must have the size of one.
pub open spec fn init_db_outcome(bytes: Seq<u8>, owner: [u8; 32]) -> Result<Seq<u8>, LedgerError> {
    if !all_zero(bytes) {
        Err(LedgerError::AlreadyInitialized)
    } else {
        match db_of(bytes) {
            None => Err(LedgerError::DecodeError),
            Some(_) => stored(
                bytes,
                db_bytes(SimplePriceDB { owner, latest_symbol: zero_symbol(), latest_price: 0 }),
            ),
        }
    }
}

/// Creates the single-slot ledger in a buffer that was never written.
pub fn init_db(buffer: &mut Vec<u8>, owner: [u8; 32]) -> (r: Result<(), LedgerError>)
    ensures
        settled(init_db_outcome(old(buffer)@, owner), old(buffer)@, final(buffer)@, r),
{
    if is_initialized(buffer) {
        return Err(LedgerError::AlreadyInitialized);
    }
    let mut db = match decode_db(buffer) {
        Ok(db) => db,
        Err(e) => { return Err(e); },
    };
    db.owner = owner;
    db.latest_symbol = [0u8; 8];
    db.latest_price = 0;
    match encode_db(&db) {
        Ok(image) => store(buffer, &image),
        Err(e) => Err(e),
    }
}

/// The single-slot ledger that an owner-gated operation starts from.
pub open spec fn opened_db(bytes: Seq<u8>, caller: Caller) -> Result<SimplePriceDB, LedgerError> {
    if !caller.is_signer {
        Err(LedgerError::MissingSignature)
    } else if all_zero(bytes) {
        Err(LedgerError::Uninitialized)
    } else {
        match db_of(bytes) {
            None => Err(LedgerError::DecodeError),
            Some(db) => if db.owner != caller.key {
                Err(LedgerError::NotOwner)
            } else {
                Ok(db)
            },
        }
    }
}

/// Reads the single-slot ledger for its owner.
pub fn open_db(buffer: &Vec<u8>, caller: &Caller) -> (r: Result<SimplePriceDB, LedgerError>)
    ensures
        r == opened_db(buffer@, *caller),
{
    if !caller.is_signer {
        return Err(LedgerError::MissingSignature);
    }
    if !is_initialized(buffer) {
        return Err(LedgerError::Uninitialized);
    }
    let db = match decode_db(buffer) {
        Ok(db) => db,
        Err(e) => { return Err(e); },
    };
    if !bytes_equal(&db.owner, &caller.key) {
        return Err(LedgerError::NotOwner);
    }
    Ok(db)
}

/// What a transfer of the single-slot ledger gives.
pub open spec fn transfer_db_outcome(bytes: Seq<u8>, new_owner: [u8; 32], caller: Caller) -> Result<
    Seq<u8>,
    LedgerError,
> {
    match opened_db(bytes, caller) {
        Err(e) => Err(e),
        Ok(db) => stored(bytes, db_bytes(SimplePriceDB { owner: new_owner, ..db })),
    }
}

/// Hands the single-slot ledger in `buffer` to `new_owner`.
pub fn transfer_db(buffer: &mut Vec<u8>, new_owner: [u8; 32], caller: &Caller) -> (r: Result<
    (),
    LedgerError,
>)
    ensures
        settled(
            transfer_db_outcome(old(buffer)@, new_owner, *caller),
            old(buffer)@,
            final(buffer)@,
            r,
        ),
{
    let mut db = match open_db(buffer, caller) {
        Ok(db) => db,
        Err(e) => { return Err(e); },
    };
    db.owner = new_owner;
    match encode_db(&db) {
        Ok(image) => store(buffer, &image),
        Err(e) => Err(e),
    }
}

/// `at` is the first slot of `s` that carries `symbol`.
pub open spec fn is_first_slot(s: Seq<Price>, symbol: [u8; 8], at: int) -> bool {
    &&& 0 <= at < s.len()
    &&& s[at].symbol == symbol
    &&& forall|j: int| 0 <= j < at ==> (#[trigger] s[j]).symbol != symbol
}

/// The rate of the first slot of `s` that carries `symbol`, if one does.
pub open spec fn quoted_rate(s: Seq<Price>, symbol: [u8; 8]) -> Option<u64> {
    if holds(s, symbol) {
        Some(s[choose|at: int| is_first_slot(s, symbol, at)].rate)
    } else {
        None
    }
}

/// Looks `symbol` up among all the slots.
pub fn quote(slots: &Vec<Price>, symbol: &[u8; 8]) -> (r: Option<u64>)
    ensures
        r == quoted_rate(slots@, *symbol),
{
    assert(slots@.take(slots.len() as int) =~= slots@);
    match find_symbol(slots, slots.len(), symbol) {
        Some(at) => {
            proof {
                assert(is_first_slot(slots@, *symbol, at as int));
                let c = choose|c: int| is_first_slot(slots@, *symbol, c);
                assert(is_first_slot(slots@, *symbol, c));
                if c < at {
                    assert(slots@[c].symbol != *symbol);
                }
                if at < c {
                    assert(slots@[at as int].symbol != *symbol);
                }
            }
            Some(slots[at].rate)
        },
        None => None,
    }
}

/// What copying a rate out of a ledger gives: the single-slot ledger with
/// `symbol` and the rate the ledger quotes for it.
pub open spec fn set_price_outcome(
    bytes: Seq<u8>,
    symbol: [u8; 8],
    caller: Caller,
    ledger: Seq<u8>,
) -> Result<Seq<u8>, LedgerError> {
    match opened_db(bytes, caller) {
        Err(e) => Err(e),
        Ok(db) => match sound_ledger_of(ledger) {
            None => Err(LedgerError::DecodeError),
            Some(l) => match quoted_rate(l.prices, symbol) {
                None => Err(LedgerError::PriceNotFound),
                Some(rate) => stored(
                    bytes,
                    db_bytes(SimplePriceDB { latest_symbol: symbol, latest_price: rate, ..db }),
                ),
            },
        },
    }
}

/// Sets the single-slot ledger's latest value to what the ledger in
/// `ledger_buffer` quotes for `symbol`.
pub fn set_price(
    buffer: &mut Vec<u8>,
    symbol: [u8; 8],
    caller: &Caller,
    ledger_buffer: &Vec<u8>,
) -> (r: Result<(), LedgerError>)
    ensures
        settled(
            set_price_outcome(old(buffer)@, symbol, *caller, ledger_buffer@),
            old(buffer)@,
            final(buffer)@,
            r,
        ),
{
    let mut db = match open_db(buffer, caller) {
        Ok(db) => db,
        Err(e) => { return Err(e); },
    };
    let ledger = match decode_ledger(ledger_buffer) {
        Ok(ledger) => ledger,
        Err(e) => { return Err(e); },
    };
    let rate = match quote(&ledger.prices, &symbol) {
        Some(rate) => rate,
        None => { return Err(LedgerError::PriceNotFound); },
    };
    db.latest_price = rate;
    db.latest_symbol = symbol;
    match encode_db(&db) {
        Ok(image) => store(buffer, &image),
        Err(e) => Err(e),
    }
}

} // verus!
