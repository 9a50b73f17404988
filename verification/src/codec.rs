//! The byte images of the stored values, and the encoder and decoder that
//! produce and read them.

use vstd::prelude::*;
use vstd::bytes::{
    lemma_auto_spec_u32_to_from_le_bytes, lemma_auto_spec_u64_to_from_le_bytes,
    spec_u32_from_le_bytes, spec_u32_to_le_bytes, spec_u64_from_le_bytes, spec_u64_to_le_bytes,
};
use crate::error::LedgerError;
use crate::ledger::{LedgerView, StdReferenceBasic};
use crate::record::{Price, SimplePriceDB};
use crate::registry::ValidatorRegistry;

verus! {

/// One record: the symbol, then the three numbers, each little-endian.
pub open spec fn price_bytes(p: Price) -> Seq<u8> {
    p.symbol@ + spec_u64_to_le_bytes(p.rate) + spec_u64_to_le_bytes(p.last_updated)
        + spec_u64_to_le_bytes(p.request_id)
}

/// The records one after another.
pub open spec fn rows_bytes(rows: Seq<Price>) -> Seq<u8>
    decreases rows.len(),
{
    if rows.len() == 0 {
        Seq::empty()
    } else {
        rows_bytes(rows.drop_last()) + price_bytes(rows.last())
    }
}

/// A ledger: the owner, the count of occupied slots, the number of slots as
/// four little-endian bytes, then every slot.
pub open spec fn ledger_bytes(l: LedgerView) -> Seq<u8> {
    l.owner@ + seq![l.current_size] + spec_u32_to_le_bytes(l.prices.len() as u32) + rows_bytes(
        l.prices,
    )
}

/// `bytes` is the image of `l`.
pub open spec fn ledger_encodes(l: LedgerView, bytes: Seq<u8>) -> bool {
    l.prices.len() <= u32::MAX && ledger_bytes(l) == bytes
}

/// The ledger that `bytes` is the image of, if it is the image of one.
pub open spec fn ledger_of(bytes: Seq<u8>) -> Option<LedgerView> {
    if exists|l: LedgerView| ledger_encodes(l, bytes) {
        Some(choose|l: LedgerView| ledger_encodes(l, bytes))
    } else {
        None
    }
}

/// The well-formed ledger that `bytes` is the image of, if there is one.
pub open spec fn sound_ledger_of(bytes: Seq<u8>) -> Option<LedgerView> {
    match ledger_of(bytes) {
        Some(l) => if l.wf() {
            Some(l)
        } else {
            None
        },
        None => None,
    }
}

/// A single-slot ledger: the owner, the symbol, the little-endian price.
pub open spec fn db_bytes(db: SimplePriceDB) -> Seq<u8> {
    db.owner@ + db.latest_symbol@ + spec_u64_to_le_bytes(db.latest_price)
}

/// The single-slot ledger that `bytes` is the image of, if there is one.
pub open spec fn db_of(bytes: Seq<u8>) -> Option<SimplePriceDB> {
    if exists|db: SimplePriceDB| db_bytes(db) == bytes {
        Some(choose|db: SimplePriceDB| db_bytes(db) == bytes)
    } else {
        None
    }
}

/// The principals one after another.
pub open spec fn keys_bytes(keys: Seq<[u8; 32]>) -> Seq<u8>
    decreases keys.len(),
{
    if keys.len() == 0 {
        Seq::empty()
    } else {
        keys_bytes(keys.drop_last()) + keys.last()@
    }
}

/// A registry: the number of principals as four little-endian bytes, then
/// every principal.
pub open spec fn registry_bytes(keys: Seq<[u8; 32]>) -> Seq<u8> {
    spec_u32_to_le_bytes(keys.len() as u32) + keys_bytes(keys)
}

/// `bytes` is the image of the registry `keys`.
pub open spec fn registry_encodes(keys: Seq<[u8; 32]>, bytes: Seq<u8>) -> bool {
    keys.len() <= u32::MAX && registry_bytes(keys) == bytes
}

/// The registry that `bytes` is the image of, if it is the image of one.
pub open spec fn registry_of(bytes: Seq<u8>) -> Option<Seq<[u8; 32]>> {
    if exists|keys: Seq<[u8; 32]>| registry_encodes(keys, bytes) {
        Some(choose|keys: Seq<[u8; 32]>| registry_encodes(keys, bytes))
    } else {
        None
    }
}

/// A record can be read back from its image, field by field.
pub proof fn lemma_price_bytes(p: Price)
    ensures
        price_bytes(p).len() == 32,
        price_bytes(p).subrange(0, 8) == p.symbol@,
        spec_u64_from_le_bytes(price_bytes(p).subrange(8, 16)) == p.rate,
        spec_u64_from_le_bytes(price_bytes(p).subrange(16, 24)) == p.last_updated,
        spec_u64_from_le_bytes(price_bytes(p).subrange(24, 32)) == p.request_id,
{
    lemma_auto_spec_u64_to_from_le_bytes();
    let b = price_bytes(p);
    assert(p.symbol@.len() == 8);
    assert(b.subrange(0, 8) =~= p.symbol@);
    assert(b.subrange(8, 16) =~= spec_u64_to_le_bytes(p.rate));
    assert(b.subrange(16, 24) =~= spec_u64_to_le_bytes(p.last_updated));
    assert(b.subrange(24, 32) =~= spec_u64_to_le_bytes(p.request_id));
}

/// Two records with one image are one record.
pub proof fn lemma_price_bytes_injective(p: Price, q: Price)
    requires
        price_bytes(p) == price_bytes(q),
    ensures
        p == q,
{
    lemma_price_bytes(p);
    lemma_price_bytes(q);
    assert(p.symbol =~= q.symbol);
}

/// Every record takes 32 bytes.
pub proof fn lemma_rows_bytes_len(rows: Seq<Price>)
    ensures
        rows_bytes(rows).len() == 32 * rows.len(),
    decreases rows.len(),
{
    if rows.len() > 0 {
        lemma_rows_bytes_len(rows.drop_last());
        lemma_price_bytes(rows.last());
    }
}

/// Two rows of records of one length with one image are one row.
pub proof fn lemma_rows_bytes_injective(x: Seq<Price>, y: Seq<Price>)
    requires
        x.len() == y.len(),
        rows_bytes(x) == rows_bytes(y),
    ensures
        x == y,
    decreases x.len(),
{
    if x.len() > 0 {
        let hx = rows_bytes(x.drop_last());
        let hy = rows_bytes(y.drop_last());
        let tx = price_bytes(x.last());
        let ty = price_bytes(y.last());
        lemma_rows_bytes_len(x.drop_last());
        lemma_rows_bytes_len(y.drop_last());
        lemma_price_bytes(x.last());
        lemma_price_bytes(y.last());
        let n = hx.len() as int;
        assert(hx =~= rows_bytes(x).take(n));
        assert(hy =~= rows_bytes(y).take(n));
        assert(tx =~= rows_bytes(x).skip(n));
        assert(ty =~= rows_bytes(y).skip(n));
        lemma_price_bytes_injective(x.last(), y.last());
        lemma_rows_bytes_injective(x.drop_last(), y.drop_last());
        assert(x =~= x.drop_last().push(x.last()));
        assert(y =~= y.drop_last().push(y.last()));
    } else {
        assert(x =~= y);
    }
}

/// A ledger's image has 37 bytes and 32 more for every slot.
pub proof fn lemma_ledger_bytes_len(l: LedgerView)
    ensures
        ledger_bytes(l).len() == 37 + 32 * l.prices.len(),
{
    lemma_auto_spec_u32_to_from_le_bytes();
    lemma_rows_bytes_len(l.prices);
    assert(l.owner@.len() == 32);
}

/// Two ledgers with one image are one ledger.
pub proof fn lemma_ledger_bytes_injective(a: LedgerView, b: LedgerView, bytes: Seq<u8>)
    requires
        ledger_encodes(a, bytes),
        ledger_encodes(b, bytes),
    ensures
        a == b,
{
    lemma_auto_spec_u32_to_from_le_bytes();
    let la = spec_u32_to_le_bytes(a.prices.len() as u32);
    let lb = spec_u32_to_le_bytes(b.prices.len() as u32);
    assert(a.owner@.len() == 32 && b.owner@.len() == 32);
    assert(bytes.subrange(0, 32) =~= a.owner@);
    assert(bytes.subrange(0, 32) =~= b.owner@);
    assert(a.owner =~= b.owner);
    assert(bytes[32] == a.current_size);
    assert(bytes[32] == b.current_size);
    assert(bytes.subrange(33, 37) =~= la);
    assert(bytes.subrange(33, 37) =~= lb);
    assert(spec_u32_from_le_bytes(la) == a.prices.len() as u32);
    assert(spec_u32_from_le_bytes(lb) == b.prices.len() as u32);
    assert(bytes.skip(37) =~= rows_bytes(a.prices));
    assert(bytes.skip(37) =~= rows_bytes(b.prices));
    lemma_rows_bytes_injective(a.prices, b.prices);
}

/// The image of a ledger reads back as that ledger and no other.
pub proof fn lemma_ledger_of(l: LedgerView, bytes: Seq<u8>)
    requires
        ledger_encodes(l, bytes),
    ensures
        ledger_of(bytes) == Some(l),
{
    let c = choose|c: LedgerView| ledger_encodes(c, bytes);
    lemma_ledger_bytes_injective(c, l, bytes);
}

/// The image of a single-slot ledger reads back as that ledger and no other.
pub proof fn lemma_db_of(db: SimplePriceDB, bytes: Seq<u8>)
    requires
        db_bytes(db) == bytes,
    ensures
        bytes.len() == 48,
        db_of(bytes) == Some(db),
{
    lemma_auto_spec_u64_to_from_le_bytes();
    let c = choose|c: SimplePriceDB| db_bytes(c) == bytes;
    assert(db.owner@.len() == 32 && c.owner@.len() == 32);
    assert(db.latest_symbol@.len() == 8 && c.latest_symbol@.len() == 8);
    assert(bytes.subrange(0, 32) =~= db.owner@);
    assert(bytes.subrange(0, 32) =~= c.owner@);
    assert(bytes.subrange(32, 40) =~= db.latest_symbol@);
    assert(bytes.subrange(32, 40) =~= c.latest_symbol@);
    assert(bytes.subrange(40, 48) =~= spec_u64_to_le_bytes(db.latest_price));
    assert(bytes.subrange(40, 48) =~= spec_u64_to_le_bytes(c.latest_price));
    assert(c.owner =~= db.owner);
    assert(c.latest_symbol =~= db.latest_symbol);
    assert(spec_u64_from_le_bytes(spec_u64_to_le_bytes(db.latest_price)) == db.latest_price);
    assert(spec_u64_from_le_bytes(spec_u64_to_le_bytes(c.latest_price)) == c.latest_price);
}

/// Every principal takes 32 bytes.
pub proof fn lemma_keys_bytes_len(keys: Seq<[u8; 32]>)
    ensures
        keys_bytes(keys).len() == 32 * keys.len(),
    decreases keys.len(),
{
    if keys.len() > 0 {
        lemma_keys_bytes_len(keys.drop_last());
        assert(keys.last()@.len() == 32);
    }
}

/// Two lists of principals of one length with one image are one list.
pub proof fn lemma_keys_bytes_injective(x: Seq<[u8; 32]>, y: Seq<[u8; 32]>)
    requires
        x.len() == y.len(),
        keys_bytes(x) == keys_bytes(y),
    ensures
        x == y,
    decreases x.len(),
{
    if x.len() > 0 {
        let hx = keys_bytes(x.drop_last());
        let hy = keys_bytes(y.drop_last());
        lemma_keys_bytes_len(x.drop_last());
        lemma_keys_bytes_len(y.drop_last());
        let n = hx.len() as int;
        assert(hx =~= keys_bytes(x).take(n));
        assert(hy =~= keys_bytes(y).take(n));
        assert(x.last()@ =~= keys_bytes(x).skip(n));
        assert(y.last()@ =~= keys_bytes(y).skip(n));
        assert(x.last() =~= y.last());
        lemma_keys_bytes_injective(x.drop_last(), y.drop_last());
        assert(x =~= x.drop_last().push(x.last()));
        assert(y =~= y.drop_last().push(y.last()));
    } else {
        assert(x =~= y);
    }
}

/// The image of a registry reads back as that registry and no other.
pub proof fn lemma_registry_of(keys: Seq<[u8; 32]>, bytes: Seq<u8>)
    requires
        registry_encodes(keys, bytes),
    ensures
        bytes.len() == 4 + 32 * keys.len(),
        registry_of(bytes) == Some(keys),
{
    lemma_auto_spec_u32_to_from_le_bytes();
    let c = choose|c: Seq<[u8; 32]>| registry_encodes(c, bytes);
    let lk = spec_u32_to_le_bytes(keys.len() as u32);
    let lc = spec_u32_to_le_bytes(c.len() as u32);
    assert(bytes.subrange(0, 4) =~= lk);
    assert(bytes.subrange(0, 4) =~= lc);
    assert(spec_u32_from_le_bytes(lk) == keys.len() as u32);
    assert(spec_u32_from_le_bytes(lc) == c.len() as u32);
    assert(bytes.skip(4) =~= keys_bytes(keys));
    assert(bytes.skip(4) =~= keys_bytes(c));
    lemma_keys_bytes_injective(c, keys);
    lemma_keys_bytes_len(keys);
}

/// Calls `borsh::to_vec` on the ledger's fields as a tuple of owner, count
/// and rows. Not proved: that the call succeeds exactly when the number of
/// slots fits in 32 bits, and that its output is `ledger_bytes`.
#[verifier::external_body]
fn ledger_to_vec(ledger: &StdReferenceBasic) -> (r: Option<Vec<u8>>)
    ensures
        r is Some <==> ledger@.prices.len() <= u32::MAX,
        r matches Some(image) ==> image@ == ledger_bytes(ledger@),
{
    let rows: Vec<([u8; 8], u64, u64, u64)> = ledger.prices.iter().map(
        |p| (p.symbol, p.rate, p.last_updated, p.request_id),
    ).collect();
    borsh::to_vec(&(ledger.owner, ledger.current_size, rows)).ok()
}

/// Calls `borsh::from_slice` for a tuple of owner, count and rows. Not
/// proved: that the call succeeds exactly on the images of ledgers, reading
/// every byte, and returns a ledger whose image it was given.
#[verifier::external_body]
fn ledger_from_slice(bytes: &Vec<u8>) -> (r: Option<StdReferenceBasic>)
    ensures
        match r {
            Some(ledger) => ledger_encodes(ledger@, bytes@),
            None => forall|l: LedgerView| !ledger_encodes(l, bytes@),
        },
{
    let (owner, current_size, rows) = borsh::from_slice::<
        ([u8; 32], u8, Vec<([u8; 8], u64, u64, u64)>),
    >(bytes.as_slice()).ok()?;
    let prices = rows.into_iter().map(
        |(symbol, rate, last_updated, request_id)| Price { symbol, rate, last_updated, request_id },
    ).collect();
    Some(StdReferenceBasic { owner, current_size, prices })
}

/// Calls `borsh::to_vec` on the single-slot ledger's fields as a tuple. Not
/// proved: that the call succeeds and that its output is `db_bytes`.
#[verifier::external_body]
fn db_to_vec(db: &SimplePriceDB) -> (r: Option<Vec<u8>>)
    ensures
        r is Some,
        r matches Some(image) ==> image@ == db_bytes(*db),
{
    borsh::to_vec(&(db.owner, db.latest_symbol, db.latest_price)).ok()
}

/// Calls `borsh::from_slice` for a tuple of owner, symbol and price. Not
/// proved: that the call succeeds exactly on the images of single-slot
/// ledgers and returns one whose image it was given.
#[verifier::external_body]
fn db_from_slice(bytes: &Vec<u8>) -> (r: Option<SimplePriceDB>)
    ensures
        match r {
            Some(db) => db_bytes(db) == bytes@,
            None => forall|db: SimplePriceDB| db_bytes(db) != bytes@,
        },
{
    let (owner, latest_symbol, latest_price) = borsh::from_slice::<([u8; 32], [u8; 8], u64)>(
        bytes.as_slice(),
    ).ok()?;
    Some(SimplePriceDB { owner, latest_symbol, latest_price })
}

/// Calls `borsh::to_vec` on the list of principals. Not proved: that the
/// call succeeds exactly when the list's length fits in 32 bits, and that
/// its output is `registry_bytes`.
#[verifier::external_body]
fn registry_to_vec(validators: &Vec<[u8; 32]>) -> (r: Option<Vec<u8>>)
    ensures
        r is Some <==> validators@.len() <= u32::MAX,
        r matches Some(image) ==> image@ == registry_bytes(validators@),
{
    borsh::to_vec(validators).ok()
}

/// Calls `borsh::from_slice` for a list of principals. Not proved: that the
/// call succeeds exactly on the images of registries and returns a list
/// whose image it was given.
#[verifier::external_body]
fn registry_from_slice(bytes: &Vec<u8>) -> (r: Option<ValidatorRegistry>)
    ensures
        match r {
            Some(registry) => registry_encodes(registry@, bytes@),
            None => forall|keys: Seq<[u8; 32]>| !registry_encodes(keys, bytes@),
        },
{
    let validators = borsh::from_slice::<Vec<[u8; 32]>>(bytes.as_slice()).ok()?;
    Some(ValidatorRegistry { validators })
}

/// The image of a ledger. Fails only for a ledger of more slots than 32
/// bits can count.
pub fn encode_ledger(ledger: &StdReferenceBasic) -> (r: Result<Vec<u8>, LedgerError>)
    ensures
        match r {
            Ok(image) => ledger@.prices.len() <= u32::MAX && image@ == ledger_bytes(ledger@),
            Err(e) => e == LedgerError::EncodeError && ledger@.prices.len() > u32::MAX,
        },
{
    match ledger_to_vec(ledger) {
        Some(image) => Ok(image),
        None => Err(LedgerError::EncodeError),
    }
}

/// Whether the bytes are the image of a ledger, well formed or not.
pub fn reads_as_ledger(bytes: &Vec<u8>) -> (r: bool)
    ensures
        r == ledger_of(bytes@) is Some,
{
    match ledger_from_slice(bytes) {
        Some(ledger) => {
            proof {
                lemma_ledger_of(ledger@, bytes@);
            }
            true
        },
        None => false,
    }
}

/// Reads a ledger from its image. A value that breaks the ledger's
/// invariant is refused like bytes that are no image at all.
pub fn decode_ledger(bytes: &Vec<u8>) -> (r: Result<StdReferenceBasic, LedgerError>)
    ensures
        match r {
            Ok(ledger) => sound_ledger_of(bytes@) == Some(ledger@),
            Err(e) => e == LedgerError::DecodeError && sound_ledger_of(bytes@) is None,
        },
{
    match ledger_from_slice(bytes) {
        Some(ledger) => {
            proof {
                lemma_ledger_of(ledger@, bytes@);
            }
            if ledger.is_well_formed() {
                Ok(ledger)
            } else {
                Err(LedgerError::DecodeError)
            }
        },
        None => Err(LedgerError::DecodeError),
    }
}

/// The image of a single-slot ledger.
pub fn encode_db(db: &SimplePriceDB) -> (r: Result<Vec<u8>, LedgerError>)
    ensures
        r matches Ok(image) && image@ == db_bytes(*db),
{
    match db_to_vec(db) {
        Some(image) => Ok(image),
        None => Err(LedgerError::EncodeError),
    }
}

/// Reads a single-slot ledger from its image.
pub fn decode_db(bytes: &Vec<u8>) -> (r: Result<SimplePriceDB, LedgerError>)
    ensures
        match r {
            Ok(db) => db_of(bytes@) == Some(db),
            Err(e) => e == LedgerError::DecodeError && db_of(bytes@) is None,
        },
{
    match db_from_slice(bytes) {
        Some(db) => {
            proof {
                lemma_db_of(db, bytes@);
            }
            Ok(db)
        },
        None => Err(LedgerError::DecodeError),
    }
}

/// The image of a registry. Fails only for a list longer than 32 bits can
/// count.
pub fn encode_registry(validators: &Vec<[u8; 32]>) -> (r: Result<Vec<u8>, LedgerError>)
    ensures
        match r {
            Ok(image) => validators@.len() <= u32::MAX && image@ == registry_bytes(validators@),
            Err(e) => e == LedgerError::EncodeError && validators@.len() > u32::MAX,
        },
{
    match registry_to_vec(validators) {
        Some(image) => Ok(image),
        None => Err(LedgerError::EncodeError),
    }
}

/// Reads a registry from its image.
pub fn decode_registry(bytes: &Vec<u8>) -> (r: Result<ValidatorRegistry, LedgerError>)
    ensures
        match r {
            Ok(registry) => registry_of(bytes@) == Some(registry@),
            Err(e) => e == LedgerError::InvalidRegistryState && registry_of(bytes@) is None,
        },
{
    match registry_from_slice(bytes) {
        Some(registry) => {
            proof {
                lemma_registry_of(registry@, bytes@);
            }
            Ok(registry)
        },
        None => Err(LedgerError::InvalidRegistryState),
    }
}

} // verus!
