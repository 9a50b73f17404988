//! The commands, the accounts they are run against, and the one entry that
//! runs any of them.

use vstd::prelude::*;
use crate::error::LedgerError;
use crate::single_slot::{
    init_db, init_db_outcome, set_price, set_price_outcome, transfer_db, transfer_db_outcome,
};
use crate::program::{
    init, init_outcome, remove, remove_outcome, set_validators, set_validators_outcome, settled,
    transfer_ownership, transfer_outcome, upsert, upsert_outcome, verified_write_outcome,
    verify_and_set_price,
};
use crate::record::{Caller, Price};

verus! {

/// What an invocation asks for.
#[derive(Clone, Debug, PartialEq)]
pub enum Command {
    /// Create a ledger of `capacity` slots owned by `owner`.
    Init { capacity: u8, owner: [u8; 32] },
    /// Hand the ledger to `new_owner`.
    TransferOwnership { new_owner: [u8; 32] },
    /// Overwrite or append `records`.
    Upsert { records: Vec<Price> },
    /// Drop the records that carry one of `symbols`.
    Remove { symbols: Vec<[u8; 8]> },
    /// Replace the validator set.
    SetValidators { validators: Vec<[u8; 32]> },
    /// Write the rate carried by a validator's proof.
    VerifyAndSetPrice { proof: Vec<u8> },
    /// Create a single-slot ledger owned by `owner`.
    InitPriceDb { owner: [u8; 32] },
    /// Hand the single-slot ledger to `new_owner`.
    TransferPriceDb { new_owner: [u8; 32] },
    /// Copy the rate that a ledger quotes for `symbol` into the single-slot
    /// ledger.
    SetPrice { symbol: [u8; 8] },
}

/// One account named by an invocation: who it is, whether it signed, and
/// the bytes it holds.
#[derive(Clone, Debug, PartialEq)]
pub struct Account {
    pub key: [u8; 32],
    pub is_signer: bool,
    pub data: Vec<u8>,
}

impl Account {
    /// The account as a principal.
    pub open spec fn caller_spec(&self) -> Caller {
        Caller { key: self.key, is_signer: self.is_signer }
    }

    /// The account as a principal.
    pub fn caller(&self) -> (r: Caller)
        ensures
            r == self.caller_spec(),
    {
        Caller { key: self.key, is_signer: self.is_signer }
    }
}

/// How many accounts a command reads, the one it writes first.
pub open spec fn accounts_needed(command: Command) -> nat {
    match command {
        Command::Init { .. } => 1,
        Command::TransferOwnership { .. } => 2,
        Command::Upsert { .. } => 2,
        Command::Remove { .. } => 2,
        Command::SetValidators { .. } => 1,
        Command::VerifyAndSetPrice { .. } => 2,
        Command::InitPriceDb { .. } => 1,
        Command::TransferPriceDb { .. } => 2,
        Command::SetPrice { .. } => 3,
    }
}

/// What a command gives for the bytes of the first account: the account it
/// writes comes first, then the caller or the registry, then the ledger
/// consulted.
pub open spec fn process_outcome(command: Command, accounts: Seq<Account>) -> Result<
    Seq<u8>,
    LedgerError,
> {
    if accounts.len() < accounts_needed(command) {
        Err(LedgerError::NotEnoughAccounts)
    } else {
        let target = accounts[0].data@;
        match command {
            Command::Init { capacity, owner } => init_outcome(target, capacity, owner),
            Command::TransferOwnership { new_owner } => transfer_outcome(
                target,
                new_owner,
                accounts[1].caller_spec(),
            ),
            Command::Upsert { records } => upsert_outcome(
                target,
                records@,
                accounts[1].caller_spec(),
            ),
            Command::Remove { symbols } => remove_outcome(
                target,
                symbols@,
                accounts[1].caller_spec(),
            ),
            Command::SetValidators { validators } => set_validators_outcome(target, validators@),
            Command::VerifyAndSetPrice { proof } => verified_write_outcome(
                proof@,
                target,
                accounts[1].data@,
            ),
            Command::InitPriceDb { owner } => init_db_outcome(target, owner),
            Command::TransferPriceDb { new_owner } => transfer_db_outcome(
                target,
                new_owner,
                accounts[1].caller_spec(),
            ),
            Command::SetPrice { symbol } => set_price_outcome(
                target,
                symbol,
                accounts[1].caller_spec(),
                accounts[2].data@,
            ),
        }
    }
}

/// The number of accounts a command reads.
pub fn needed(command: &Command) -> (r: usize)
    ensures
        r == accounts_needed(*command),
{
    match command {
        Command::Init { .. } => 1,
        Command::TransferOwnership { .. } => 2,
        Command::Upsert { .. } => 2,
        Command::Remove { .. } => 2,
        Command::SetValidators { .. } => 1,
        Command::VerifyAndSetPrice { .. } => 2,
        Command::InitPriceDb { .. } => 1,
        Command::TransferPriceDb { .. } => 2,
        Command::SetPrice { .. } => 3,
    }
}

/// A copy of a buffer.
pub fn copy_bytes(bytes: &Vec<u8>) -> (r: Vec<u8>)
    ensures
        r@ == bytes@,
{
    let mut out: Vec<u8> = Vec::new();
    let mut i: usize = 0;
    while i < bytes.len()
        invariant
            0 <= i <= bytes.len(),
            out@ == bytes@.take(i as int),
        decreases bytes.len() - i,
    {
        out.push(bytes[i]);
        assert(out@ =~= bytes@.take(i + 1));
        i += 1;
    }
    assert(bytes@.take(bytes.len() as int) =~= bytes@);
    out
}

/// Runs one command against the accounts it names. Only the bytes of the
/// first account can change, and they change only on success.
pub fn process(command: &Command, accounts: &mut Vec<Account>) -> (r: Result<(), LedgerError>)
    ensures
        final(accounts).len() == old(accounts).len(),
        forall|i: int|
            0 <= i < old(accounts).len() ==> (#[trigger] final(accounts)@[i]).key == old(
                accounts,
            )@[i].key && final(accounts)@[i].is_signer == old(accounts)@[i].is_signer,
        forall|i: int|
            1 <= i < old(accounts).len() ==> (#[trigger] final(accounts)@[i]).data@ == old(
                accounts,
            )@[i].data@,
        old(accounts).len() == 0 ==> r == Err::<(), LedgerError>(LedgerError::NotEnoughAccounts),
        old(accounts).len() > 0 ==> settled(
            process_outcome(*command, old(accounts)@),
            old(accounts)@[0].data@,
            final(accounts)@[0].data@,
            r,
        ),
{
    if accounts.len() < needed(command) {
        return Err(LedgerError::NotEnoughAccounts);
    }
    match command {
        Command::Init { capacity, owner } => init(&mut accounts[0].data, *capacity, *owner),
        Command::TransferOwnership { new_owner } => {
            let caller = accounts[1].caller();
            transfer_ownership(&mut accounts[0].data, *new_owner, &caller)
        },
        Command::Upsert { records } => {
            let caller = accounts[1].caller();
            upsert(&mut accounts[0].data, records, &caller)
        },
        Command::Remove { symbols } => {
            let caller = accounts[1].caller();
            remove(&mut accounts[0].data, symbols, &caller)
        },
        Command::SetValidators { validators } => set_validators(&mut accounts[0].data, validators),
        Command::VerifyAndSetPrice { proof } => {
            let registry = copy_bytes(&accounts[1].data);
            verify_and_set_price(proof, &mut accounts[0].data, &registry)
        },
        Command::InitPriceDb { owner } => init_db(&mut accounts[0].data, *owner),
        Command::TransferPriceDb { new_owner } => {
            let caller = accounts[1].caller();
            transfer_db(&mut accounts[0].data, *new_owner, &caller)
        },
        Command::SetPrice { symbol } => {
            let caller = accounts[1].caller();
            let ledger = copy_bytes(&accounts[2].data);
            set_price(&mut accounts[0].data, *symbol, &caller, &ledger)
        },
    }
}

} // verus!
