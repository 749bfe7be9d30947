use stealth_core::group::Scalar;
use stealth_core::Point;
use stealth_core::{StealthAddress, StealthMasterKey, StealthScanner, StealthTransaction};

fn identity() -> Point {
    Point::base_mul(&Scalar::zero())
}

#[test]
fn test_generate_stealth_master_key() {
    let key = StealthMasterKey::generate();
    assert_eq!(key.spend_public, Point::base_mul(&key.spend_private));
    assert_eq!(key.view_public, Point::base_mul(&key.view_private));
}

#[test]
fn test_stealth_address_serialization() {
    let key = StealthMasterKey::generate();
    let address = key.get_stealth_address();
    let bytes = address.to_bytes();
    let decoded = StealthAddress::from_bytes(&bytes).unwrap();
    assert_eq!(address.spend_public, decoded.spend_public);
    assert_eq!(address.view_public, decoded.view_public);
}

#[test]
fn test_stealth_address_base58() {
    let key = StealthMasterKey::generate();
    let address = key.get_stealth_address();
    let base58 = address.to_base58();
    let decoded = StealthAddress::from_base58(&base58).unwrap();
    assert_eq!(address.spend_public, decoded.spend_public);
    assert_eq!(address.view_public, decoded.view_public);
}

#[test]
fn test_one_time_address_generation() {
    let recipient = StealthMasterKey::generate();
    let address = recipient.get_stealth_address();
    let tx = address.generate_one_time_address();
    assert_ne!(tx.ephemeral_public, identity());
    assert_ne!(tx.one_time_public, identity());
}

#[test]
fn test_recipient_can_scan_transaction() {
    let recipient = StealthMasterKey::generate();
    let address = recipient.get_stealth_address();
    let tx = address.generate_one_time_address();
    let private_key = recipient.scan_transaction(&tx.ephemeral_public, &tx.one_time_public);
    assert!(private_key.is_some());
    let derived_public = Point::base_mul(&private_key.unwrap());
    assert_eq!(derived_public, tx.one_time_public);
}

#[test]
fn test_non_recipient_cannot_scan() {
    let recipient = StealthMasterKey::generate();
    let address = recipient.get_stealth_address();
    let tx = address.generate_one_time_address();
    let other_recipient = StealthMasterKey::generate();
    let result = other_recipient.scan_transaction(&tx.ephemeral_public, &tx.one_time_public);
    assert!(result.is_none());
}

#[test]
fn stealth_test_transaction_serialization() {
    let recipient = StealthMasterKey::generate();
    let address = recipient.get_stealth_address();
    let tx = address.generate_one_time_address();
    let data = tx.to_transaction_data();
    let deserialized = StealthTransaction::from_transaction_data(&data).unwrap();
    assert_eq!(tx.ephemeral_public, deserialized.ephemeral_public);
    assert_eq!(tx.one_time_public, deserialized.one_time_public);
}

#[test]
fn test_stealth_scanner() {
    let recipient = StealthMasterKey::generate();
    let address = recipient.get_stealth_address();
    let mut transactions = Vec::new();
    for _ in 0..5 {
        transactions.push(address.generate_one_time_address());
    }
    let mut scanner = StealthScanner::new(recipient);
    let owned = scanner.scan_transactions(&transactions);
    assert_eq!(owned.len(), 5);
}

#[test]
fn test_mixed_transaction_scanning() {
    let recipient1 = StealthMasterKey::generate();
    let recipient2 = StealthMasterKey::generate();
    let address1 = recipient1.get_stealth_address();
    let address2 = recipient2.get_stealth_address();
    let mut transactions = Vec::new();
    transactions.push(address1.generate_one_time_address());
    transactions.push(address2.generate_one_time_address());
    transactions.push(address1.generate_one_time_address());
    let mut scanner1 = StealthScanner::new(recipient1);
    let owned1 = scanner1.scan_transactions(&transactions);
    assert_eq!(owned1.len(), 2);
    assert_eq!(owned1[0].0, 0);
    assert_eq!(owned1[1].0, 2);
}

#[test]
fn test_master_key_restoration() {
    let original = StealthMasterKey::generate();
    let spend_bytes = original.export_spend_private();
    let view_bytes = original.export_view_private();
    let spend_scalar = Scalar::from_bytes_mod_order(spend_bytes);
    let view_scalar = Scalar::from_bytes_mod_order(view_bytes);
    let restored = StealthMasterKey::from_keys(spend_scalar, view_scalar);
    assert_eq!(original.spend_private, restored.spend_private);
    assert_eq!(original.view_private, restored.view_private);
    assert_eq!(original.spend_public, restored.spend_public);
    assert_eq!(original.view_public, restored.view_public);
}

#[test]
fn scan_recognises_and_rejects_by_recipient() {
    let a = StealthMasterKey::generate();
    let b = StealthMasterKey::generate();
    let batch = vec![
        a.get_stealth_address().generate_one_time_address(),
        b.get_stealth_address().generate_one_time_address(),
        a.get_stealth_address().generate_one_time_address(),
    ];
    let mut scanner_a = StealthScanner::new(a.clone());
    let mut scanner_b = StealthScanner::new(b.clone());
    let found_a: Vec<usize> = scanner_a.scan_transactions(&batch).iter().map(|e| e.0).collect();
    let found_b: Vec<usize> = scanner_b.scan_transactions(&batch).iter().map(|e| e.0).collect();
    assert_eq!(found_a, vec![0, 2]);
    assert_eq!(found_b, vec![1]);
}

#[test]
fn scanner_remembers_recognised_outputs() {
    let key = StealthMasterKey::generate();
    let other = StealthMasterKey::generate();
    let mine = key.get_stealth_address().generate_one_time_address();
    let theirs = other.get_stealth_address().generate_one_time_address();
    let mut scanner = StealthScanner::new(key.clone());
    let found = scanner.scan_transactions(&[mine, theirs]);
    assert_eq!(found.len(), 1);
    let remembered = scanner.get_private_key(&mine.to_transaction_data()).unwrap();
    assert_eq!(remembered, found[0].1);
    assert_eq!(Point::base_mul(&remembered), mine.one_time_public);
    assert!(scanner.get_private_key(&theirs.to_transaction_data()).is_none());
    let again = scanner.scan_transactions(&[mine]);
    assert_eq!(again.len(), 1);
    assert_eq!(again[0].1, remembered);
}

#[test]
fn one_time_address_from_chosen_ephemeral() {
    let key = StealthMasterKey::generate();
    let address = key.get_stealth_address();
    let r = Scalar::from_u64(123456789);
    let tx1 = address.generate_one_time_address_with(r);
    let tx2 = address.generate_one_time_address_with(r);
    assert_eq!(tx1.ephemeral_public, Point::base_mul(&r));
    assert_eq!(tx1.one_time_public, tx2.one_time_public);
    assert_eq!(tx1.destination_address(), tx1.one_time_public);
    let p = key.scan_transaction(&tx1.ephemeral_public, &tx1.one_time_public).unwrap();
    assert_eq!(Point::base_mul(&p), tx1.one_time_public);
}

#[test]
fn address_bytes_are_spend_then_view() {
    let key = StealthMasterKey::generate();
    let address = key.get_stealth_address();
    let bytes = address.to_bytes();
    assert_eq!(bytes.len(), 64);
    assert_eq!(&bytes[0..32], &key.spend_public.bytes[..]);
    assert_eq!(&bytes[32..64], &key.view_public.bytes[..]);
    assert_eq!(address.to_base58(), bs58::encode(&bytes).into_string());
}

#[test]
fn address_decoding_errors() {
    assert!(matches!(StealthAddress::from_bytes(&[0u8; 63]), Err(stealth_core::CoreError::Serialization(_))));
    assert!(matches!(StealthAddress::from_bytes(&[0xffu8; 64]), Err(stealth_core::CoreError::Serialization(_))));
    assert!(matches!(StealthAddress::from_base58("0OIl"), Err(stealth_core::CoreError::Serialization(_))));
    assert!(matches!(
        StealthTransaction::from_transaction_data(&[1u8; 65]),
        Err(stealth_core::CoreError::Serialization(_))
    ));
}

#[test]
fn invalidate_wipes_private_keys() {
    let mut key = StealthMasterKey::generate();
    let spend_public = key.spend_public;
    key.invalidate();
    assert_eq!(key.spend_private, Scalar::zero());
    assert_eq!(key.view_private, Scalar::zero());
    assert_eq!(key.spend_public, spend_public);
    assert_eq!(key.export_spend_private(), [0u8; 32]);
}

#[test]
fn auditor_detects_without_spend_key() {
    let owner = StealthMasterKey::generate();
    let auditor = StealthMasterKey {
        spend_private: Scalar::zero(),
        spend_public: owner.spend_public,
        view_private: owner.view_private,
        view_public: owner.view_public,
    };
    let other = StealthMasterKey::generate();
    let batch = vec![
        owner.get_stealth_address().generate_one_time_address(),
        other.get_stealth_address().generate_one_time_address(),
    ];
    let owner_key = owner.scan_transaction(&batch[0].ephemeral_public, &batch[0].one_time_public).unwrap();
    let audit_key = auditor.scan_transaction(&batch[0].ephemeral_public, &batch[0].one_time_public).unwrap();
    assert_eq!(Point::base_mul(&owner_key), batch[0].one_time_public);
    assert_ne!(Point::base_mul(&audit_key), batch[0].one_time_public);
    assert_eq!(owner_key, audit_key.plus(&owner.spend_private));
    assert!(auditor.scan_transaction(&batch[1].ephemeral_public, &batch[1].one_time_public).is_none());
    let mut scanner = StealthScanner::new(auditor);
    let found: Vec<usize> = scanner.scan_transactions(&batch).iter().map(|e| e.0).collect();
    assert_eq!(found, vec![0]);
}
