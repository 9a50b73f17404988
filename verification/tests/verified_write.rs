use pricedb::codec::{decode_db, decode_registry, encode_db, encode_registry};
use pricedb::error::LedgerError;
use pricedb::program::{set_validators, split_proof, validate, verify_and_set_price};
use pricedb::record::SimplePriceDB;
use pricedb::registry::ValidatorRegistry;

fn registry_buffer() -> Vec<u8> {
    let mut buffer = vec![0u8; 68];
    set_validators(&mut buffer, &vec![[1u8; 32], [2u8; 32]]).unwrap();
    buffer
}

fn db_buffer() -> Vec<u8> {
    encode_db(&SimplePriceDB { owner: [5u8; 32], latest_symbol: *b"BTC\0\0\0\0\0", latest_price: 1 })
        .unwrap()
}

fn proof_of(identity: [u8; 32], rate: [u8; 8]) -> Vec<u8> {
    let mut proof = identity.to_vec();
    proof.extend_from_slice(&rate);
    proof
}

#[test]
fn registry_image_is_exact() {
    let buffer = registry_buffer();
    let mut expected = vec![2u8, 0, 0, 0];
    expected.extend_from_slice(&[1u8; 32]);
    expected.extend_from_slice(&[2u8; 32]);
    assert_eq!(buffer, expected);
    assert_eq!(encode_registry(&vec![[1u8; 32], [2u8; 32]]), Ok(expected));
    assert_eq!(
        decode_registry(&buffer),
        Ok(ValidatorRegistry { validators: vec![[1u8; 32], [2u8; 32]] })
    );
}

#[test]
fn single_slot_image_is_exact() {
    let bytes = db_buffer();
    let mut expected = vec![5u8; 32];
    expected.extend_from_slice(b"BTC\0\0\0\0\0");
    expected.extend_from_slice(&[1, 0, 0, 0, 0, 0, 0, 0]);
    assert_eq!(bytes, expected);
    assert_eq!(
        decode_db(&bytes),
        Ok(SimplePriceDB { owner: [5u8; 32], latest_symbol: *b"BTC\0\0\0\0\0", latest_price: 1 })
    );
    assert_eq!(decode_db(&bytes[..47].to_vec()), Err(LedgerError::DecodeError));
    let mut longer = bytes.clone();
    longer.push(0);
    assert_eq!(decode_db(&longer), Err(LedgerError::DecodeError));
}

#[test]
fn unlisted_identity_is_refused() {
    let mut ledger = db_buffer();
    let before = ledger.clone();
    let proof = proof_of([0u8; 32], [254, 133, 13, 0, 0, 0, 0, 0]);
    assert_eq!(
        verify_and_set_price(&proof, &mut ledger, &registry_buffer()),
        Err(LedgerError::UnauthorizedValidator)
    );
    assert_eq!(ledger, before);
}

#[test]
fn short_proof_is_malformed() {
    let mut ledger = db_buffer();
    let before = ledger.clone();
    assert_eq!(
        verify_and_set_price(&vec![0u8; 32], &mut ledger, &registry_buffer()),
        Err(LedgerError::MalformedProof)
    );
    assert_eq!(
        verify_and_set_price(&vec![2u8; 39], &mut ledger, &registry_buffer()),
        Err(LedgerError::MalformedProof)
    );
    assert_eq!(
        verify_and_set_price(&vec![], &mut ledger, &vec![9u8; 3]),
        Err(LedgerError::MalformedProof)
    );
    assert_eq!(ledger, before);
}

#[test]
fn listed_identity_writes_the_rate() {
    let mut ledger = db_buffer();
    let proof = proof_of([2u8; 32], [254, 133, 13, 0, 0, 0, 0, 0]);
    verify_and_set_price(&proof, &mut ledger, &registry_buffer()).unwrap();
    assert_eq!(
        decode_db(&ledger),
        Ok(SimplePriceDB {
            owner: [5u8; 32],
            latest_symbol: *b"BTC\0\0\0\0\0",
            latest_price: 886270
        })
    );
}

#[test]
fn bytes_before_the_tail_are_ignored() {
    let mut ledger = db_buffer();
    let mut proof = vec![0xAAu8; 100];
    proof.extend_from_slice(&proof_of([1u8; 32], [7, 0, 0, 0, 0, 0, 0, 1]));
    verify_and_set_price(&proof, &mut ledger, &registry_buffer()).unwrap();
    assert_eq!(decode_db(&ledger).unwrap().latest_price, 7 + (1u64 << 56));
    assert_eq!(split_proof(&proof), Ok(([1u8; 32], 7 + (1u64 << 56))));
}

#[test]
fn unreadable_registry_is_reported() {
    let mut ledger = db_buffer();
    let before = ledger.clone();
    let proof = proof_of([2u8; 32], [1, 0, 0, 0, 0, 0, 0, 0]);
    let mut registry = registry_buffer();
    registry.push(0);
    assert_eq!(
        verify_and_set_price(&proof, &mut ledger, &registry),
        Err(LedgerError::InvalidRegistryState)
    );
    assert_eq!(
        verify_and_set_price(&proof, &mut ledger, &vec![]),
        Err(LedgerError::InvalidRegistryState)
    );
    assert_eq!(ledger, before);
}

#[test]
fn unreadable_ledger_is_reported_after_the_proof_is_accepted() {
    let proof = proof_of([2u8; 32], [1, 0, 0, 0, 0, 0, 0, 0]);
    let mut ledger = vec![3u8; 47];
    assert_eq!(
        verify_and_set_price(&proof, &mut ledger, &registry_buffer()),
        Err(LedgerError::DecodeError)
    );
    assert_eq!(ledger, vec![3u8; 47]);
    let stranger = proof_of([9u8; 32], [1, 0, 0, 0, 0, 0, 0, 0]);
    assert_eq!(
        verify_and_set_price(&stranger, &mut ledger, &registry_buffer()),
        Err(LedgerError::UnauthorizedValidator)
    );
}

#[test]
fn validate_gives_identity_and_rate() {
    let proof = proof_of([1u8; 32], [5, 0, 0, 0, 0, 0, 0, 0]);
    assert_eq!(validate(&proof, &registry_buffer()), Ok(([1u8; 32], 5)));
    let other = proof_of([3u8; 32], [5, 0, 0, 0, 0, 0, 0, 0]);
    assert_eq!(validate(&other, &registry_buffer()), Err(LedgerError::UnauthorizedValidator));
}

#[test]
fn set_validators_overwrites_the_whole_set() {
    let mut buffer = registry_buffer();
    set_validators(&mut buffer, &vec![[3u8; 32], [3u8; 32]]).unwrap();
    let registry = decode_registry(&buffer).unwrap();
    assert_eq!(registry.validators, vec![[3u8; 32], [3u8; 32]]);
    assert!(registry.contains(&[3u8; 32]));
    assert!(!registry.contains(&[1u8; 32]));
    assert!(!registry.contains(&[2u8; 32]));
}

#[test]
fn set_validators_needs_room() {
    let mut buffer = vec![0u8; 67];
    assert_eq!(
        set_validators(&mut buffer, &vec![[1u8; 32], [2u8; 32]]),
        Err(LedgerError::EncodeError)
    );
    assert_eq!(buffer, vec![0u8; 67]);
}

#[test]
fn shorter_set_leaves_the_rest_of_the_buffer() {
    let mut buffer = registry_buffer();
    set_validators(&mut buffer, &vec![[4u8; 32]]).unwrap();
    let mut expected = vec![1u8, 0, 0, 0];
    expected.extend_from_slice(&[4u8; 32]);
    expected.extend_from_slice(&[2u8; 32]);
    assert_eq!(buffer, expected);
    assert_eq!(decode_registry(&buffer), Err(LedgerError::InvalidRegistryState));
}

#[test]
fn registry_membership_is_by_value() {
    let mut registry = ValidatorRegistry::new(vec![[1u8; 32]]);
    assert!(registry.contains(&[1u8; 32]));
    let mut near = [1u8; 32];
    near[31] = 0;
    assert!(!registry.contains(&near));
    registry.set(vec![near, near]);
    assert!(registry.contains(&near));
    assert!(!registry.contains(&[1u8; 32]));
    registry.set(vec![]);
    assert!(!registry.contains(&near));
}
