use clob_core::errors::CoreError;
use clob_core::hash::keccak256;
use clob_core::input::{Message, MessageSignature};
use clob_core::types::U256;
use clob_core::verify::{
    address_from_key, check_lot_size, check_tick_price_multiple, domain_separator, message_hash,
    price_from_tick, recover_address, verify_signature,
};

use k256::ecdsa::SigningKey;

fn address(key: &SigningKey) -> [u8; 20] {
    let pubkey = key.verifying_key().to_encoded_point(false);
    let hash = keccak256(&pubkey.as_bytes()[1..]);
    hash[12..].try_into().unwrap()
}

fn sign_with(key: &SigningKey, hash: [u8; 32], offset: u8) -> MessageSignature {
    let (sig, recid) = key.sign_prehash_recoverable(&hash).expect("sign");
    let bytes = sig.to_bytes();
    MessageSignature {
        r: bytes[..32].try_into().unwrap(),
        s: bytes[32..].try_into().unwrap(),
        v: recid.to_byte() + offset,
    }
}

#[test]
fn recovers_the_signer() {
    let key = SigningKey::from_slice(&[0x42u8; 32]).unwrap();
    let hash = keccak256(b"some message");
    let expected = address(&key);
    assert_eq!(recover_address(&hash, &sign_with(&key, hash, 27)).expect("v 27/28"), expected);
    assert_eq!(recover_address(&hash, &sign_with(&key, hash, 0)).expect("v 0/1"), expected);
    assert_ne!(expected, [0u8; 20]);
    assert_ne!(&expected[..], &hash[..20]);
}

#[test]
fn address_is_the_tail_of_the_hash_of_the_key() {
    let key = SigningKey::from_slice(&[0x42u8; 32]).unwrap();
    let point = key.verifying_key().to_encoded_point(false);
    let bytes = point.as_bytes();
    assert_eq!(bytes.len(), 65);
    assert_eq!(address_from_key(bytes).expect("address"), address(&key));
    assert!(matches!(address_from_key(&bytes[..64]), Err(CoreError::Signature(_))));
    assert!(matches!(address_from_key(&[]), Err(CoreError::Signature(_))));
}

#[test]
fn the_other_recovery_id_gives_another_address() {
    let key = SigningKey::from_slice(&[0x42u8; 32]).unwrap();
    let hash = keccak256(b"some message");
    let mut sig = sign_with(&key, hash, 0);
    sig.v ^= 1;
    match recover_address(&hash, &sig) {
        Ok(addr) => assert_ne!(addr, address(&key)),
        Err(e) => assert!(matches!(e, CoreError::Signature(_))),
    }
}

#[test]
fn malformed_signatures_are_signature_errors() {
    let key = SigningKey::from_slice(&[0x42u8; 32]).unwrap();
    let hash = keccak256(b"some message");
    let good = sign_with(&key, hash, 27);
    for v in [2u8, 3, 26, 29, 255] {
        let bad = MessageSignature { r: good.r, s: good.s, v };
        assert!(matches!(recover_address(&hash, &bad), Err(CoreError::Signature(_))));
    }
    let zero_r = MessageSignature { r: [0u8; 32], s: good.s, v: 27 };
    assert!(matches!(recover_address(&hash, &zero_r), Err(CoreError::Signature(_))));
    let zero_s = MessageSignature { r: good.r, s: [0u8; 32], v: 27 };
    assert!(matches!(recover_address(&hash, &zero_s), Err(CoreError::Signature(_))));
    let large = MessageSignature { r: [0xffu8; 32], s: good.s, v: 27 };
    assert!(matches!(recover_address(&hash, &large), Err(CoreError::Signature(_))));
}

#[test]
fn signature_binds_message_and_domain() {
    let key = SigningKey::from_slice(&[0x42u8; 32]).unwrap();
    let trader = address(&key);
    let domain = domain_separator(1, &[9u8; 32], &[3u8; 32]);
    let message = Message::Cancel { trader, nonce: 1, order_id: [7u8; 32] };
    let sig = sign_with(&key, message_hash(&domain, &message), 27);
    verify_signature(&domain, &message, &sig, &trader).expect("signed");

    let other = Message::Cancel { trader, nonce: 2, order_id: [7u8; 32] };
    assert!(matches!(
        verify_signature(&domain, &other, &sig, &trader),
        Err(CoreError::Signature(_))
    ));
    let elsewhere = domain_separator(2, &[9u8; 32], &[3u8; 32]);
    assert!(matches!(
        verify_signature(&elsewhere, &message, &sig, &trader),
        Err(CoreError::Signature(_))
    ));
    let mut stranger = trader;
    stranger[0] ^= 1;
    assert!(matches!(
        verify_signature(&domain, &message, &sig, &stranger),
        Err(CoreError::Signature(_))
    ));
}

#[test]
fn tick_prices() {
    let size = U256::from(1_000_000_000_000_000_000u128);
    assert_eq!(price_from_tick(0, size).expect("zero"), U256::zero());
    assert_eq!(price_from_tick(3, size).expect("three"), U256::from(3_000_000_000_000_000_000u128));
    assert_eq!(
        price_from_tick(i32::MAX, U256::from(2u64)).expect("max"),
        U256::from(2 * (i32::MAX as u64))
    );
    assert!(matches!(price_from_tick(-1, size), Err(CoreError::Invalid(_))));
    assert!(matches!(price_from_tick(i32::MIN, size), Err(CoreError::Invalid(_))));
    assert!(matches!(price_from_tick(2, U256::max_value()), Err(CoreError::Math(_))));
    assert_eq!(price_from_tick(1, U256::max_value()).expect("fits"), U256::max_value());
}

#[test]
fn multiples() {
    let n = |v: u64| U256::from(v);
    check_lot_size(n(12), n(4)).expect("multiple");
    check_lot_size(n(0), n(4)).expect("zero is a multiple");
    assert!(matches!(check_lot_size(n(13), n(4)), Err(CoreError::Invalid(_))));
    assert!(matches!(check_lot_size(n(12), n(0)), Err(CoreError::Invalid(_))));
    check_tick_price_multiple(n(15), n(5)).expect("multiple");
    assert!(matches!(check_tick_price_multiple(n(16), n(5)), Err(CoreError::Invalid(_))));
    assert!(matches!(check_tick_price_multiple(n(16), n(0)), Err(CoreError::Invalid(_))));
    let big = U256 { hi: 3, lo: 0 };
    check_lot_size(big, U256 { hi: 1, lo: 0 }).expect("wide multiple");
    assert!(matches!(check_lot_size(big, U256 { hi: 2, lo: 0 }), Err(CoreError::Invalid(_))));
}
