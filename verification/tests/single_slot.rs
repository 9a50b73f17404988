use pricedb::codec::{decode_db, encode_ledger};
use pricedb::error::LedgerError;
use pricedb::ledger::StdReferenceBasic;
use pricedb::record::{Caller, Price, SimplePriceDB};
use pricedb::single_slot::{init_db, open_db, quote, set_price, transfer_db};

const O: [u8; 32] = [7u8; 32];

fn owner() -> Caller {
    Caller { key: O, is_signer: true }
}

fn sym(letter: u8) -> [u8; 8] {
    [letter, 0, 0, 0, 0, 0, 0, 0]
}

fn made() -> Vec<u8> {
    let mut buffer = vec![0u8; 48];
    init_db(&mut buffer, O).unwrap();
    buffer
}

fn quotes() -> Vec<u8> {
    let mut ledger = StdReferenceBasic::new(3, [1u8; 32]);
    ledger
        .upsert(
            &vec![
                Price { symbol: sym(b'A'), rate: 10, last_updated: 1, request_id: 1 },
                Price { symbol: sym(b'B'), rate: 20, last_updated: 2, request_id: 2 },
            ],
            &Caller { key: [1u8; 32], is_signer: true },
        )
        .unwrap();
    encode_ledger(&ledger).unwrap()
}

#[test]
fn init_db_sets_the_owner() {
    let buffer = made();
    assert_eq!(
        decode_db(&buffer),
        Ok(SimplePriceDB { owner: O, latest_symbol: [0u8; 8], latest_price: 0 })
    );
}

#[test]
fn init_db_refuses_written_or_misshapen_buffers() {
    let mut buffer = made();
    assert_eq!(init_db(&mut buffer, [9u8; 32]), Err(LedgerError::AlreadyInitialized));
    assert_eq!(buffer, made());
    let mut short = vec![0u8; 9];
    assert_eq!(init_db(&mut short, O), Err(LedgerError::DecodeError));
    assert_eq!(short, vec![0u8; 9]);
}

#[test]
fn transfer_db_changes_the_owner() {
    let mut buffer = made();
    transfer_db(&mut buffer, [9u8; 32], &owner()).unwrap();
    assert_eq!(decode_db(&buffer).unwrap().owner, [9u8; 32]);
    let before = buffer.clone();
    assert_eq!(transfer_db(&mut buffer, O, &owner()), Err(LedgerError::NotOwner));
    assert_eq!(
        transfer_db(&mut buffer, O, &Caller { key: [9u8; 32], is_signer: false }),
        Err(LedgerError::MissingSignature)
    );
    assert_eq!(buffer, before);
    let mut blank = vec![0u8; 48];
    assert_eq!(transfer_db(&mut blank, O, &owner()), Err(LedgerError::Uninitialized));
    let mut garbage = vec![1u8; 9];
    assert_eq!(transfer_db(&mut garbage, O, &owner()), Err(LedgerError::DecodeError));
}

#[test]
fn set_price_copies_the_quoted_rate() {
    let mut buffer = made();
    set_price(&mut buffer, sym(b'B'), &owner(), &quotes()).unwrap();
    assert_eq!(
        decode_db(&buffer),
        Ok(SimplePriceDB { owner: O, latest_symbol: sym(b'B'), latest_price: 20 })
    );
}

#[test]
fn set_price_fails_for_an_unknown_symbol() {
    let mut buffer = made();
    let before = buffer.clone();
    assert_eq!(
        set_price(&mut buffer, sym(b'Z'), &owner(), &quotes()),
        Err(LedgerError::PriceNotFound)
    );
    assert_eq!(
        set_price(&mut buffer, sym(b'B'), &owner(), &vec![1u8; 5]),
        Err(LedgerError::DecodeError)
    );
    assert_eq!(
        set_price(&mut buffer, sym(b'B'), &Caller { key: [8u8; 32], is_signer: true }, &quotes()),
        Err(LedgerError::NotOwner)
    );
    assert_eq!(buffer, before);
}

#[test]
fn quote_takes_the_first_match() {
    let rows = vec![
        Price { symbol: sym(b'A'), rate: 10, last_updated: 1, request_id: 1 },
        Price { symbol: sym(b'B'), rate: 20, last_updated: 2, request_id: 2 },
        Price { symbol: sym(b'A'), rate: 30, last_updated: 3, request_id: 3 },
    ];
    assert_eq!(quote(&rows, &sym(b'A')), Some(10));
    assert_eq!(quote(&rows, &sym(b'B')), Some(20));
    assert_eq!(quote(&rows, &sym(b'C')), None);
}

#[test]
fn open_db_is_for_the_owner() {
    let buffer = made();
    assert_eq!(
        open_db(&buffer, &owner()),
        Ok(SimplePriceDB { owner: O, latest_symbol: [0u8; 8], latest_price: 0 })
    );
    assert_eq!(
        open_db(&buffer, &Caller { key: [8u8; 32], is_signer: true }),
        Err(LedgerError::NotOwner)
    );
}
