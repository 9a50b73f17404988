use pricedb::codec::{decode_ledger, encode_ledger};
use pricedb::error::LedgerError;
use pricedb::ledger::StdReferenceBasic;
use pricedb::program::{init, is_initialized, remove, store, transfer_ownership, upsert};
use pricedb::record::{Caller, Price};

const O: [u8; 32] = [7u8; 32];

fn sym(letter: u8) -> [u8; 8] {
    [letter, 0, 0, 0, 0, 0, 0, 0]
}

fn rec(letter: u8, rate: u64, last_updated: u64, request_id: u64) -> Price {
    Price { symbol: sym(letter), rate, last_updated, request_id }
}

fn owner() -> Caller {
    Caller { key: O, is_signer: true }
}

fn image(owner: [u8; 32], current_size: u8, rows: &[Price]) -> Vec<u8> {
    let mut out = Vec::new();
    out.extend_from_slice(&owner);
    out.push(current_size);
    out.extend_from_slice(&(rows.len() as u32).to_le_bytes());
    for row in rows {
        out.extend_from_slice(&row.symbol);
        out.extend_from_slice(&row.rate.to_le_bytes());
        out.extend_from_slice(&row.last_updated.to_le_bytes());
        out.extend_from_slice(&row.request_id.to_le_bytes());
    }
    out
}

fn initialised() -> Vec<u8> {
    let mut buffer = vec![0u8; 133];
    init(&mut buffer, 3, O).unwrap();
    buffer
}

fn after_first_batch() -> Vec<u8> {
    let mut buffer = initialised();
    upsert(&mut buffer, &vec![rec(b'A', 10, 1, 101), rec(b'B', 20, 2, 102)], &owner()).unwrap();
    buffer
}

fn after_update() -> Vec<u8> {
    let mut buffer = after_first_batch();
    upsert(&mut buffer, &vec![rec(b'A', 99, 3, 103)], &owner()).unwrap();
    buffer
}

#[test]
fn zeroed_buffer_is_uninitialized() {
    assert!(!is_initialized(&vec![0u8; 48]));
    assert!(!is_initialized(&vec![]));
    assert!(is_initialized(&vec![0, 0, 0, 1]));
    assert!(is_initialized(&vec![255u8; 70000]));
}

#[test]
fn init_on_zeroed_buffer() {
    let buffer = initialised();
    let empty = Price::empty();
    assert_eq!(buffer, image(O, 0, &[empty, empty, empty]));
    assert_eq!(
        decode_ledger(&buffer),
        Ok(StdReferenceBasic { owner: O, current_size: 0, prices: vec![empty, empty, empty] })
    );
    let mut expected = vec![7u8; 32];
    expected.push(0);
    expected.extend_from_slice(&[3, 0, 0, 0]);
    expected.extend_from_slice(&[0u8; 96]);
    assert_eq!(buffer, expected);
}

#[test]
fn upsert_two_new_records() {
    let buffer = after_first_batch();
    assert_eq!(
        buffer,
        image(O, 2, &[rec(b'A', 10, 1, 101), rec(b'B', 20, 2, 102), Price::empty()])
    );
}

#[test]
fn upsert_known_symbol_rewrites_its_slot() {
    let buffer = after_update();
    assert_eq!(
        buffer,
        image(O, 2, &[rec(b'A', 99, 3, 103), rec(b'B', 20, 2, 102), Price::empty()])
    );
    let ledger = decode_ledger(&buffer).unwrap();
    assert_eq!(ledger.current_size, 2);
    assert_eq!(ledger.prices[0], rec(b'A', 99, 3, 103));
}

#[test]
fn upsert_past_capacity_leaves_buffer_untouched() {
    let mut buffer = after_update();
    let before = buffer.clone();
    let r = upsert(
        &mut buffer,
        &vec![rec(b'C', 1, 0, 0), rec(b'D', 1, 0, 0), rec(b'E', 1, 0, 0)],
        &owner(),
    );
    assert_eq!(r, Err(LedgerError::CapacityExceeded));
    assert_eq!(buffer, before);
}

#[test]
fn remove_one_symbol() {
    let mut buffer = after_update();
    remove(&mut buffer, &vec![sym(b'A')], &owner()).unwrap();
    assert_eq!(buffer, image(O, 1, &[rec(b'B', 20, 2, 102), Price::empty(), Price::empty()]));
}

#[test]
fn init_refuses_a_written_buffer() {
    let mut buffer = initialised();
    let before = buffer.clone();
    assert_eq!(init(&mut buffer, 3, [9u8; 32]), Err(LedgerError::AlreadyInitialized));
    assert_eq!(buffer, before);
    let mut one = vec![0u8; 133];
    one[132] = 1;
    assert_eq!(init(&mut one, 3, O), Err(LedgerError::AlreadyInitialized));
}

#[test]
fn init_refuses_a_zeroed_buffer_that_reads_as_a_ledger() {
    let mut buffer = vec![0u8; 37];
    assert_eq!(init(&mut buffer, 0, O), Err(LedgerError::InvalidState));
    assert_eq!(buffer, vec![0u8; 37]);
}

#[test]
fn init_refuses_a_buffer_too_small_for_the_ledger() {
    let mut buffer = vec![0u8; 132];
    assert_eq!(init(&mut buffer, 3, O), Err(LedgerError::EncodeError));
    assert_eq!(buffer, vec![0u8; 132]);
}

#[test]
fn init_into_a_larger_buffer_writes_the_front() {
    let mut buffer = vec![0u8; 140];
    init(&mut buffer, 3, O).unwrap();
    let empty = Price::empty();
    let mut expected = image(O, 0, &[empty, empty, empty]);
    expected.extend_from_slice(&[0u8; 7]);
    assert_eq!(buffer, expected);
    assert_eq!(
        upsert(&mut buffer, &vec![rec(b'A', 1, 1, 1)], &owner()),
        Err(LedgerError::DecodeError)
    );
    assert_eq!(buffer, expected);
}

#[test]
fn operations_refuse_an_unwritten_buffer() {
    let mut buffer = vec![0u8; 133];
    assert_eq!(
        transfer_ownership(&mut buffer, [9u8; 32], &owner()),
        Err(LedgerError::Uninitialized)
    );
    assert_eq!(
        upsert(&mut buffer, &vec![rec(b'A', 1, 1, 1)], &owner()),
        Err(LedgerError::Uninitialized)
    );
    assert_eq!(remove(&mut buffer, &vec![sym(b'A')], &owner()), Err(LedgerError::Uninitialized));
    assert_eq!(buffer, vec![0u8; 133]);
}

#[test]
fn signature_is_asked_for_before_the_buffer_is_read() {
    let unsigned = Caller { key: O, is_signer: false };
    let mut buffer = vec![0u8; 133];
    assert_eq!(
        upsert(&mut buffer, &vec![rec(b'A', 1, 1, 1)], &unsigned),
        Err(LedgerError::MissingSignature)
    );
    let mut written = after_update();
    let before = written.clone();
    assert_eq!(
        transfer_ownership(&mut written, [9u8; 32], &unsigned),
        Err(LedgerError::MissingSignature)
    );
    assert_eq!(remove(&mut written, &vec![sym(b'A')], &unsigned), Err(LedgerError::MissingSignature));
    assert_eq!(written, before);
}

#[test]
fn stranger_cannot_touch_the_buffer() {
    let stranger = Caller { key: [8u8; 32], is_signer: true };
    let mut buffer = after_update();
    let before = buffer.clone();
    assert_eq!(
        transfer_ownership(&mut buffer, [8u8; 32], &stranger),
        Err(LedgerError::NotOwner)
    );
    assert_eq!(
        upsert(&mut buffer, &vec![rec(b'C', 1, 1, 1)], &stranger),
        Err(LedgerError::NotOwner)
    );
    assert_eq!(remove(&mut buffer, &vec![sym(b'A')], &stranger), Err(LedgerError::NotOwner));
    assert_eq!(buffer, before);
}

#[test]
fn stranger_with_an_overfull_batch_is_told_not_owner() {
    let stranger = Caller { key: [8u8; 32], is_signer: true };
    let mut buffer = after_update();
    let r = upsert(
        &mut buffer,
        &vec![rec(b'C', 1, 0, 0), rec(b'D', 1, 0, 0), rec(b'E', 1, 0, 0)],
        &stranger,
    );
    assert_eq!(r, Err(LedgerError::NotOwner));
}

#[test]
fn transfer_rewrites_the_owner_bytes_only() {
    let mut buffer = after_update();
    let before = buffer.clone();
    transfer_ownership(&mut buffer, [9u8; 32], &owner()).unwrap();
    assert_eq!(&buffer[..32], &[9u8; 32]);
    assert_eq!(&buffer[32..], &before[32..]);
    assert_eq!(
        upsert(&mut buffer, &vec![rec(b'A', 1, 1, 1)], &owner()),
        Err(LedgerError::NotOwner)
    );
    let heir = Caller { key: [9u8; 32], is_signer: true };
    upsert(&mut buffer, &vec![rec(b'A', 1, 1, 1)], &heir).unwrap();
    assert_eq!(
        buffer,
        image([9u8; 32], 2, &[rec(b'A', 1, 1, 1), rec(b'B', 20, 2, 102), Price::empty()])
    );
}

#[test]
fn garbage_is_not_a_ledger() {
    let mut buffer = vec![1u8; 50];
    let before = buffer.clone();
    assert_eq!(
        upsert(&mut buffer, &vec![rec(b'A', 1, 1, 1)], &owner()),
        Err(LedgerError::DecodeError)
    );
    assert_eq!(buffer, before);
}

#[test]
fn ill_formed_ledger_is_not_read() {
    let mut buffer = image(O, 2, &[rec(b'A', 1, 1, 1), rec(b'A', 2, 2, 2), Price::empty()]);
    let before = buffer.clone();
    assert_eq!(decode_ledger(&buffer), Err(LedgerError::DecodeError));
    assert_eq!(remove(&mut buffer, &vec![sym(b'A')], &owner()), Err(LedgerError::DecodeError));
    assert_eq!(buffer, before);
    let oversize = image(O, 4, &[rec(b'A', 1, 1, 1), rec(b'B', 2, 2, 2), rec(b'C', 3, 3, 3)]);
    assert_eq!(decode_ledger(&oversize), Err(LedgerError::DecodeError));
}

#[test]
fn buffer_upsert_twice_equals_once() {
    let batch = vec![rec(b'B', 21, 5, 105), rec(b'C', 30, 6, 106), rec(b'B', 22, 7, 107)];
    let mut once = after_first_batch();
    upsert(&mut once, &batch, &owner()).unwrap();
    let mut twice = once.clone();
    upsert(&mut twice, &batch, &owner()).unwrap();
    assert_eq!(once, twice);
}

#[test]
fn capacity_holds_over_a_run_of_operations() {
    let mut buffer = initialised();
    let steps: Vec<(bool, Vec<u8>)> = vec![
        (true, vec![b'A', b'B']),
        (true, vec![b'C', b'D']),
        (false, vec![b'A']),
        (true, vec![b'C', b'D']),
        (true, vec![b'E']),
        (false, vec![b'B', b'C', b'D']),
        (true, vec![b'A', b'B', b'C']),
    ];
    for (is_upsert, letters) in steps {
        let _ = if is_upsert {
            upsert(&mut buffer, &letters.iter().map(|l| rec(*l, 1, 1, 1)).collect(), &owner())
        } else {
            remove(&mut buffer, &letters.iter().map(|l| sym(*l)).collect(), &owner())
        };
        let ledger = decode_ledger(&buffer).unwrap();
        assert_eq!(ledger.prices.len(), 3);
        assert!(ledger.current_size <= 3);
        for slot in &ledger.prices[ledger.current_size as usize..] {
            assert_eq!(*slot, Price::empty());
        }
    }
    assert_eq!(
        decode_ledger(&buffer).unwrap().prices,
        vec![rec(b'A', 1, 1, 1), rec(b'B', 1, 1, 1), rec(b'C', 1, 1, 1)]
    );
}

#[test]
fn store_writes_the_front_or_nothing() {
    let mut buffer = vec![9u8; 5];
    store(&mut buffer, &vec![1, 2, 3]).unwrap();
    assert_eq!(buffer, vec![1, 2, 3, 9, 9]);
    assert_eq!(store(&mut buffer, &vec![0u8; 6]), Err(LedgerError::EncodeError));
    assert_eq!(buffer, vec![1, 2, 3, 9, 9]);
    store(&mut buffer, &vec![]).unwrap();
    assert_eq!(buffer, vec![1, 2, 3, 9, 9]);
}

#[test]
fn ledger_image_is_exact() {
    let ledger = StdReferenceBasic {
        owner: O,
        current_size: 1,
        prices: vec![rec(b'A', 0x0102030405060708, 258, u64::MAX), Price::empty()],
    };
    let bytes = encode_ledger(&ledger).unwrap();
    let mut expected = vec![7u8; 32];
    expected.push(1);
    expected.extend_from_slice(&[2, 0, 0, 0]);
    expected.extend_from_slice(&[b'A', 0, 0, 0, 0, 0, 0, 0]);
    expected.extend_from_slice(&[8, 7, 6, 5, 4, 3, 2, 1]);
    expected.extend_from_slice(&[2, 1, 0, 0, 0, 0, 0, 0]);
    expected.extend_from_slice(&[255u8; 8]);
    expected.extend_from_slice(&[0u8; 32]);
    assert_eq!(bytes, expected);
    assert_eq!(decode_ledger(&bytes), Ok(ledger));
    let mut longer = bytes.clone();
    longer.push(0);
    assert_eq!(decode_ledger(&longer), Err(LedgerError::DecodeError));
    assert_eq!(decode_ledger(&bytes[..bytes.len() - 1].to_vec()), Err(LedgerError::DecodeError));
}

#[test]
fn only_images_read_as_ledgers() {
    assert!(pricedb::codec::reads_as_ledger(&vec![0u8; 37]));
    assert!(!pricedb::codec::reads_as_ledger(&vec![0u8; 36]));
    assert!(!pricedb::codec::reads_as_ledger(&vec![0u8; 69]));
    assert!(pricedb::codec::reads_as_ledger(&initialised()));
    let twice = image(O, 2, &[rec(b'A', 1, 1, 1), rec(b'A', 2, 2, 2)]);
    assert!(pricedb::codec::reads_as_ledger(&twice));
    assert_eq!(decode_ledger(&twice), Err(LedgerError::DecodeError));
}
