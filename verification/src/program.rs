//! The operations as they act on the byte buffers that hold the state: each
//! reads its buffers, decides, and either rewrites one buffer with the new
//! image or leaves every byte as it was.

use vstd::prelude::*;
use vstd::bytes::{spec_u64_from_le_bytes, u64_from_le_bytes};
use vstd::slice::slice_subrange;
use crate::codec::{
    db_bytes, db_of, decode_db, decode_ledger, decode_registry, encode_db, encode_ledger,
    encode_registry, ledger_bytes, ledger_of, reads_as_ledger, registry_bytes, registry_of,
    sound_ledger_of,
};
use crate::error::LedgerError;
use crate::ledger::{LedgerView, StdReferenceBasic};
use crate::record::{empty_price, Caller, Price, SimplePriceDB};

verus! {

/// Every byte is zero: the state of a buffer that was never written.
pub open spec fn all_zero(bytes: Seq<u8>) -> bool {
    forall|i: int| 0 <= i < bytes.len() ==> bytes[i] == 0
}

/// Whether the buffer holds a non-zero byte.
pub fn is_initialized(arr: &Vec<u8>) -> (r: bool)
    ensures
        r == !all_zero(arr@),
{
    let mut i: usize = 0;
    while i < arr.len()
        invariant
            0 <= i <= arr.len(),
            forall|j: int| 0 <= j < i ==> arr@[j] == 0,
        decreases arr.len() - i,
    {
        if arr[i] != 0 {
            return true;
        }
        i += 1;
    }
    false
}

/// What writing `image` over the front of `buffer` gives: an image longer
/// than the buffer is refused, a shorter one leaves the rest as it was.
pub open spec fn stored(buffer: Seq<u8>, image: Seq<u8>) -> Result<Seq<u8>, LedgerError> {
    if image.len() > buffer.len() {
        Err(LedgerError::EncodeError)
    } else {
        Ok(image + buffer.skip(image.len() as int))
    }
}

/// An operation with the given `outcome` ran on a buffer that held `before`
/// and now holds `after`, and answered `r`: on success the buffer holds the
/// new image, on failure the error is the one owed and no byte has changed.
pub open spec fn settled(
    outcome: Result<Seq<u8>, LedgerError>,
    before: Seq<u8>,
    after: Seq<u8>,
    r: Result<(), LedgerError>,
) -> bool {
    match outcome {
        Ok(image) => r is Ok && after == image,
        Err(e) => r == Err::<(), LedgerError>(e) && after == before,
    }
}

/// Writes `image` over the front of `buffer`, or nothing at all.
pub fn store(buffer: &mut Vec<u8>, image: &Vec<u8>) -> (r: Result<(), LedgerError>)
    ensures
        settled(stored(old(buffer)@, image@), old(buffer)@, final(buffer)@, r),
{
    if image.len() > buffer.len() {
        return Err(LedgerError::EncodeError);
    }
    let mut i: usize = 0;
    while i < image.len()
        invariant
            0 <= i <= image.len() <= buffer.len(),
            buffer.len() == old(buffer).len(),
            forall|j: int| 0 <= j < i ==> buffer@[j] == image@[j],
            forall|j: int| i <= j < buffer.len() ==> buffer@[j] == old(buffer)@[j],
        decreases image.len() - i,
    {
        buffer[i] = image[i];
        i += 1;
    }
    assert(buffer@ =~= image@ + old(buffer)@.skip(image.len() as int));
    Ok(())
}

/// The ledger that a new buffer is given: `capacity` empty slots.
pub open spec fn fresh_ledger(capacity: u8, owner: [u8; 32]) -> LedgerView {
    LedgerView {
        owner,
        current_size: 0,
        prices: Seq::new(capacity as nat, |i: int| empty_price()),
    }
}

/// What initialising a buffer gives: a buffer that was written is refused,
/// and so is one that holds only zero bytes and yet reads as a ledger.
pub open spec fn init_outcome(bytes: Seq<u8>, capacity: u8, owner: [u8; 32]) -> Result<
    Seq<u8>,
    LedgerError,
> {
    if !all_zero(bytes) {
        Err(LedgerError::AlreadyInitialized)
    } else if ledger_of(bytes) is Some {
        Err(LedgerError::InvalidState)
    } else {
        stored(bytes, ledger_bytes(fresh_ledger(capacity, owner)))
    }
}

/// Creates the ledger in a buffer that was never written.
pub fn init(buffer: &mut Vec<u8>, capacity: u8, owner: [u8; 32]) -> (r: Result<(), LedgerError>)
    ensures
        settled(init_outcome(old(buffer)@, capacity, owner), old(buffer)@, final(buffer)@, r),
{
    if is_initialized(buffer) {
        return Err(LedgerError::AlreadyInitialized);
    }
    if reads_as_ledger(buffer) {
        return Err(LedgerError::InvalidState);
    }
    let ledger = StdReferenceBasic::new(capacity, owner);
    assert(ledger@ == fresh_ledger(capacity, owner));
    match encode_ledger(&ledger) {
        Ok(image) => store(buffer, &image),
        Err(e) => Err(e),
    }
}

/// The ledger that an owner-gated operation starts from: the caller must
/// have signed, the buffer must have been written, and it must read as a
/// well-formed ledger.
pub open spec fn opened(bytes: Seq<u8>, caller: Caller) -> Result<LedgerView, LedgerError> {
    if !caller.is_signer {
        Err(LedgerError::MissingSignature)
    } else if all_zero(bytes) {
        Err(LedgerError::Uninitialized)
    } else {
        match sound_ledger_of(bytes) {
            Some(ledger) => Ok(ledger),
            None => Err(LedgerError::DecodeError),
        }
    }
}

/// What an owner-gated operation leaves in the buffer, given what it made
/// of the ledger.
pub open spec fn committed(bytes: Seq<u8>, next: Result<LedgerView, LedgerError>) -> Result<
    Seq<u8>,
    LedgerError,
> {
    match next {
        Ok(ledger) => stored(bytes, ledger_bytes(ledger)),
        Err(e) => Err(e),
    }
}

/// Reads the ledger that an owner-gated operation starts from.
pub fn open_ledger(buffer: &Vec<u8>, caller: &Caller) -> (r: Result<
    StdReferenceBasic,
    LedgerError,
>)
    ensures
        match r {
            Ok(ledger) => opened(buffer@, *caller) == Ok::<LedgerView, LedgerError>(ledger@)
                && ledger@.wf(),
            Err(e) => opened(buffer@, *caller) == Err::<LedgerView, LedgerError>(e),
        },
{
    if !caller.is_signer {
        return Err(LedgerError::MissingSignature);
    }
    if !is_initialized(buffer) {
        return Err(LedgerError::Uninitialized);
    }
    decode_ledger(buffer)
}

/// Writes a well-formed ledger's image into the buffer.
pub fn commit_ledger(buffer: &mut Vec<u8>, ledger: &StdReferenceBasic) -> (r: Result<
    (),
    LedgerError,
>)
    requires
        ledger@.wf(),
    ensures
        settled(stored(old(buffer)@, ledger_bytes(ledger@)), old(buffer)@, final(buffer)@, r),
{
    match encode_ledger(ledger) {
        Ok(image) => store(buffer, &image),
        Err(e) => Err(e),
    }
}

/// What a transfer of ownership gives.
pub open spec fn transfer_outcome(bytes: Seq<u8>, new_owner: [u8; 32], caller: Caller) -> Result<
    Seq<u8>,
    LedgerError,
> {
    match opened(bytes, caller) {
        Ok(ledger) => committed(bytes, ledger.transfer(new_owner, caller)),
        Err(e) => Err(e),
    }
}

/// Hands the ledger in `buffer` to `new_owner`.
pub fn transfer_ownership(buffer: &mut Vec<u8>, new_owner: [u8; 32], caller: &Caller) -> (r:
    Result<(), LedgerError>)
    ensures
        settled(
            transfer_outcome(old(buffer)@, new_owner, *caller),
            old(buffer)@,
            final(buffer)@,
            r,
        ),
{
    let mut ledger = match open_ledger(buffer, caller) {
        Ok(ledger) => ledger,
        Err(e) => { return Err(e); },
    };
    match ledger.transfer_ownership(new_owner, caller) {
        Ok(()) => commit_ledger(buffer, &ledger),
        Err(e) => Err(e),
    }
}

/// What an upsert gives.
pub open spec fn upsert_outcome(bytes: Seq<u8>, records: Seq<Price>, caller: Caller) -> Result<
    Seq<u8>,
    LedgerError,
> {
    match opened(bytes, caller) {
        Ok(ledger) => committed(bytes, ledger.upsert(records, caller)),
        Err(e) => Err(e),
    }
}

/// Applies a batch of records to the ledger in `buffer`.
pub fn upsert(buffer: &mut Vec<u8>, records: &Vec<Price>, caller: &Caller) -> (r: Result<
    (),
    LedgerError,
>)
    ensures
        settled(upsert_outcome(old(buffer)@, records@, *caller), old(buffer)@, final(buffer)@, r),
{
    let mut ledger = match open_ledger(buffer, caller) {
        Ok(ledger) => ledger,
        Err(e) => { return Err(e); },
    };
    match ledger.upsert(records, caller) {
        Ok(()) => commit_ledger(buffer, &ledger),
        Err(e) => Err(e),
    }
}

/// What a removal gives.
pub open spec fn remove_outcome(bytes: Seq<u8>, symbols: Seq<[u8; 8]>, caller: Caller) -> Result<
    Seq<u8>,
    LedgerError,
> {
    match opened(bytes, caller) {
        Ok(ledger) => committed(bytes, ledger.remove(symbols, caller)),
        Err(e) => Err(e),
    }
}

/// Removes the records that carry one of `symbols` from the ledger in
/// `buffer`.
pub fn remove(buffer: &mut Vec<u8>, symbols: &Vec<[u8; 8]>, caller: &Caller) -> (r: Result<
    (),
    LedgerError,
>)
    ensures
        settled(remove_outcome(old(buffer)@, symbols@, *caller), old(buffer)@, final(buffer)@, r),
{
    let mut ledger = match open_ledger(buffer, caller) {
        Ok(ledger) => ledger,
        Err(e) => { return Err(e); },
    };
    match ledger.remove(symbols, caller) {
        Ok(()) => commit_ledger(buffer, &ledger),
        Err(e) => Err(e),
    }
}

/// What replacing the validator set gives. No credential is asked for.
pub open spec fn set_validators_outcome(bytes: Seq<u8>, validators: Seq<[u8; 32]>) -> Result<
    Seq<u8>,
    LedgerError,
> {
    if validators.len() > u32::MAX {
        Err(LedgerError::EncodeError)
    } else {
        stored(bytes, registry_bytes(validators))
    }
}

/// Overwrites the registry in `buffer` with `validators`, whoever asks.
pub fn set_validators(buffer: &mut Vec<u8>, validators: &Vec<[u8; 32]>) -> (r: Result<
    (),
    LedgerError,
>)
    ensures
        settled(
            set_validators_outcome(old(buffer)@, validators@),
            old(buffer)@,
            final(buffer)@,
            r,
        ),
{
    match encode_registry(validators) {
        Ok(image) => store(buffer, &image),
        Err(e) => Err(e),
    }
}

/// The identity that a proof claims: the 32 bytes before its last 8.
pub open spec fn proof_identity(proof: Seq<u8>) -> Seq<u8> {
    proof.subrange(proof.len() - 40, proof.len() - 8)
}

/// The rate that a proof carries: its last 8 bytes, little-endian.
pub open spec fn proof_rate(proof: Seq<u8>) -> u64 {
    spec_u64_from_le_bytes(proof.subrange(proof.len() - 8, proof.len() as int))
}

/// Some listed principal has exactly the bytes `identity`.
pub open spec fn lists(validators: Seq<[u8; 32]>, identity: Seq<u8>) -> bool {
    exists|i: int| 0 <= i < validators.len() && (#[trigger] validators[i])@ == identity
}

/// Why a proof is turned away, if it is: too short for its fixed tail, no
/// readable registry to hold it against, or an identity that is not listed.
pub open spec fn proof_refusal(proof: Seq<u8>, registry: Seq<u8>) -> Option<LedgerError> {
    if proof.len() < 40 {
        Some(LedgerError::MalformedProof)
    } else {
        match registry_of(registry) {
            None => Some(LedgerError::InvalidRegistryState),
            Some(validators) => if lists(validators, proof_identity(proof)) {
                None
            } else {
                Some(LedgerError::UnauthorizedValidator)
            },
        }
    }
}

/// Splits a proof into the identity it claims and the rate it carries.
/// Whatever precedes the last 40 bytes is ignored.
pub fn split_proof(proof: &Vec<u8>) -> (r: Result<([u8; 32], u64), LedgerError>)
    ensures
        match r {
            Ok((identity, rate)) => proof.len() >= 40 && identity@ == proof_identity(proof@)
                && rate == proof_rate(proof@),
            Err(e) => e == LedgerError::MalformedProof && proof.len() < 40,
        },
{
    let n = proof.len();
    if n < 40 {
        return Err(LedgerError::MalformedProof);
    }
    let start = n - 40;
    let mut identity = [0u8; 32];
    let mut i: usize = 0;
    while i < 32
        invariant
            0 <= i <= 32,
            start + 40 == n == proof.len(),
            forall|j: int| 0 <= j < i ==> identity@[j] == proof@[start + j],
        decreases 32 - i,
    {
        identity[i] = proof[start + i];
        i += 1;
    }
    assert(identity@ =~= proof_identity(proof@));
    let rate = u64_from_le_bytes(slice_subrange(proof.as_slice(), n - 8, n));
    Ok((identity, rate))
}

/// Checks a proof against the registry held in `registry_buffer` and gives
/// the identity it was accepted for, with the rate to write.
pub fn validate(proof: &Vec<u8>, registry_buffer: &Vec<u8>) -> (r: Result<
    ([u8; 32], u64),
    LedgerError,
>)
    ensures
        match r {
            Ok((identity, rate)) => proof_refusal(proof@, registry_buffer@) is None && identity@
                == proof_identity(proof@) && rate == proof_rate(proof@),
            Err(e) => proof_refusal(proof@, registry_buffer@) == Some(e),
        },
{
    let (identity, rate) = match split_proof(proof) {
        Ok(parts) => parts,
        Err(e) => { return Err(e); },
    };
    let registry = match decode_registry(registry_buffer) {
        Ok(registry) => registry,
        Err(e) => { return Err(e); },
    };
    if registry.contains(&identity) {
        let ghost at = choose|i: int| 0 <= i < registry@.len() && registry@[i] == identity;
        assert(registry@[at]@ == proof_identity(proof@));
        Ok((identity, rate))
    } else {
        assert forall|i: int| 0 <= i < registry@.len() implies (#[trigger] registry@[i])@
            != proof_identity(proof@) by {
            if registry@[i]@ == identity@ {
                assert(registry@[i] =~= identity);
                assert(registry@.contains(identity));
            }
        }
        Err(LedgerError::UnauthorizedValidator)
    }
}

/// What a validator-attested write gives: the single-slot ledger with the
/// proof's rate as its latest price, where the proof is accepted.
pub open spec fn verified_write_outcome(
    proof: Seq<u8>,
    ledger: Seq<u8>,
    registry: Seq<u8>,
) -> Result<Seq<u8>, LedgerError> {
    match proof_refusal(proof, registry) {
        Some(e) => Err(e),
        None => match db_of(ledger) {
            None => Err(LedgerError::DecodeError),
            Some(db) => stored(
                ledger,
                db_bytes(SimplePriceDB { latest_price: proof_rate(proof), ..db }),
            ),
        },
    }
}

/// Writes the rate carried by `proof` into the single-slot ledger, on the
/// sole authority of the registry listing the identity the proof claims.
pub fn verify_and_set_price(
    proof: &Vec<u8>,
    ledger_buffer: &mut Vec<u8>,
    registry_buffer: &Vec<u8>,
) -> (r: Result<(), LedgerError>)
    ensures
        settled(
            verified_write_outcome(proof@, old(ledger_buffer)@, registry_buffer@),
            old(ledger_buffer)@,
            final(ledger_buffer)@,
            r,
        ),
{
    let (_, rate) = match validate(proof, registry_buffer) {
        Ok(parts) => parts,
        Err(e) => { return Err(e); },
    };
    let mut db = match decode_db(ledger_buffer) {
        Ok(db) => db,
        Err(e) => { return Err(e); },
    };
    db.latest_price = rate;
    match encode_db(&db) {
        Ok(image) => store(ledger_buffer, &image),
        Err(e) => Err(e),
    }
}

} // verus!
