use stealth_core::commitments::PedersenCommitment;
use stealth_core::group::{random_scalar, Scalar};
use stealth_core::Point;
use stealth_core::{CoreError, PrivateTransaction, RangeProof, TransactionBuilder, TransactionInput, TransactionOutput};

#[test]
fn test_simple_transaction() {
    let mut builder = TransactionBuilder::new();
    let input_blinding = random_scalar();
    builder.add_input([0u8; 32], 0, 100, input_blinding);
    builder.add_output(vec![1, 2, 3, 4], 80);
    let change_blinding = builder.calculate_change_blinding();
    builder.add_output_with_blinding(vec![5, 6, 7, 8], 10, change_blinding);
    builder.set_fee(10);
    let tx = builder.build().unwrap();
    assert_eq!(tx.inputs.len(), 1);
    assert_eq!(tx.outputs.len(), 2);
    assert_eq!(tx.fee, 10);
    assert!(tx.verify().unwrap());
}

#[test]
fn test_multi_input_transaction() {
    let mut builder = TransactionBuilder::new();
    let blinding1 = random_scalar();
    let blinding2 = random_scalar();
    builder.add_input([1u8; 32], 0, 50, blinding1);
    builder.add_input([2u8; 32], 1, 75, blinding2);
    builder.set_fee(5);
    let output_blinding = builder.calculate_change_blinding();
    builder.add_output_with_blinding(vec![1, 2, 3, 4], 120, output_blinding);
    let tx = builder.build().unwrap();
    assert_eq!(tx.inputs.len(), 2);
    assert_eq!(tx.outputs.len(), 1);
    assert!(tx.verify().unwrap());
}

#[test]
fn test_unbalanced_transaction_fails() {
    let mut builder = TransactionBuilder::new();
    let blinding = random_scalar();
    builder.add_input([0u8; 32], 0, 100, blinding);
    builder.add_output(vec![1, 2, 3, 4], 150);
    builder.set_fee(0);
    let result = builder.build();
    assert!(result.is_err());
}

#[test]
fn transaction_builder_test_transaction_serialization() {
    let mut builder = TransactionBuilder::new();
    let blinding = random_scalar();
    builder.add_input([0u8; 32], 0, 100, blinding);
    builder.add_output(vec![1, 2, 3, 4], 90);
    builder.set_fee(10);
    let tx = builder.build().unwrap();
    let bytes = tx.to_bytes().unwrap();
    let deserialized = PrivateTransaction::from_bytes(&bytes).unwrap();
    assert_eq!(tx.inputs.len(), deserialized.inputs.len());
    assert_eq!(tx.outputs.len(), deserialized.outputs.len());
    assert_eq!(tx.fee, deserialized.fee);
}

#[test]
fn test_estimate_size() {
    let mut builder = TransactionBuilder::new();
    let blinding = random_scalar();
    builder.add_input([0u8; 32], 0, 100, blinding);
    builder.add_output(vec![1, 2, 3, 4], 90);
    builder.set_fee(10);
    let size = builder.estimate_size();
    assert!(size > 800 && size < 1100);
}

#[test]
fn test_change_blinding_calculation() {
    let mut builder = TransactionBuilder::new();
    let input_blinding = random_scalar();
    builder.add_input([0u8; 32], 0, 100, input_blinding);
    builder.add_output(vec![1, 2, 3, 4], 90);
    let change_blinding = builder.calculate_change_blinding();
    builder.add_output_with_blinding(vec![5, 6, 7, 8], 5, change_blinding);
    builder.set_fee(5);
    let tx = builder.build().unwrap();
    assert!(tx.verify().unwrap());
}

fn simple_send_with_change() -> PrivateTransaction {
    let mut builder = TransactionBuilder::new();
    builder.add_input([0u8; 32], 0, 100, random_scalar());
    builder.add_output(vec![1, 2, 3, 4], 80);
    let change = builder.calculate_change_blinding();
    builder.add_output_with_blinding(vec![5, 6, 7, 8], 10, change);
    builder.set_fee(10);
    builder.build().unwrap()
}

#[test]
fn send_with_change_verifies() {
    let tx = simple_send_with_change();
    assert_eq!(tx.outputs.len(), 2);
    assert_eq!(tx.range_proofs.len(), 2);
    assert_eq!(tx.fee, 10);
    assert!(tx.verify_balance());
    assert_eq!(tx.verify(), Ok(true));
}

#[test]
fn unbalanced_message_names_the_sums() {
    let mut builder = TransactionBuilder::new();
    builder.add_input([0u8; 32], 0, 100, random_scalar());
    builder.add_output(vec![1, 2, 3, 4], 150);
    builder.set_fee(0);
    match builder.build() {
        Err(CoreError::InvalidParameter(msg)) => {
            assert_eq!(msg, "Unbalanced transaction: inputs=100, outputs=150, fee=0");
        },
        _ => panic!("expected an invalid parameter error"),
    }
}

#[test]
fn value_sums_beyond_u64_are_rejected() {
    let mut builder = TransactionBuilder::new();
    builder.add_input([0u8; 32], 0, u64::MAX, random_scalar());
    builder.add_input([1u8; 32], 0, 1, random_scalar());
    builder.add_output(vec![1], 0);
    assert!(matches!(builder.build(), Err(CoreError::InvalidParameter(_))));

    let mut builder = TransactionBuilder::new();
    builder.add_input([0u8; 32], 0, u64::MAX, random_scalar());
    builder.add_output(vec![1], u64::MAX);
    builder.set_fee(1);
    assert!(matches!(builder.build(), Err(CoreError::InvalidParameter(_))));

    let mut builder = TransactionBuilder::new();
    builder.add_input([0u8; 32], 0, u64::MAX, random_scalar());
    let change = builder.calculate_change_blinding();
    builder.add_output_with_blinding(vec![1], u64::MAX, change);
    let tx = builder.build().unwrap();
    assert_eq!(tx.verify(), Ok(true));
}

#[test]
fn empty_inputs_or_outputs_do_not_balance() {
    let tx = simple_send_with_change();
    let mut no_inputs = tx.clone();
    no_inputs.inputs.clear();
    assert!(!no_inputs.verify_balance());
    let mut no_outputs = tx.clone();
    no_outputs.outputs.clear();
    no_outputs.range_proofs.clear();
    assert!(!no_outputs.verify_balance());
    assert_eq!(no_outputs.verify(), Ok(false));
}

#[test]
fn proofs_without_outputs_are_a_structural_error() {
    let tx = simple_send_with_change();
    let mut broken = tx.clone();
    broken.outputs.clear();
    assert!(matches!(broken.verify(), Err(CoreError::InvalidParameter(_))));
    let mut fewer = tx.clone();
    fewer.range_proofs.pop();
    assert!(matches!(fewer.verify(), Err(CoreError::InvalidParameter(_))));
}

#[test]
fn tampered_range_proof_fails() {
    let mut tx = simple_send_with_change();
    tx.range_proofs[0] = RangeProof::prove(80, &random_scalar(), 64).unwrap();
    assert_eq!(tx.verify(), Ok(false));
}

#[test]
fn missing_change_blinding_fails_verification() {
    let mut builder = TransactionBuilder::new();
    builder.add_input([0u8; 32], 0, 100, random_scalar());
    builder.add_output(vec![1], 90);
    builder.set_fee(10);
    let tx = builder.build().unwrap();
    assert_eq!(tx.verify(), Ok(false));
}

#[test]
fn change_blinding_closes_blindings() {
    let mut builder = TransactionBuilder::new();
    builder.add_input([0u8; 32], 0, 10, Scalar::from_u64(30));
    builder.add_output_with_blinding(vec![1], 4, Scalar::from_u64(12));
    assert_eq!(builder.calculate_change_blinding(), Scalar::from_u64(18));
    builder.add_output_with_blinding(vec![2], 6, Scalar::from_u64(18));
    assert_eq!(builder.calculate_change_blinding(), Scalar::zero());
    let tx = builder.build().unwrap();
    assert_eq!(tx.verify(), Ok(true));
    assert_eq!(builder.estimate_size(), 150 + 2 * 750 + 50);
}

#[test]
fn built_transaction_keeps_fields() {
    let mut builder = TransactionBuilder::new();
    builder.add_input([7u8; 32], 3, 10, Scalar::from_u64(1));
    builder.add_output_with_blinding(vec![9, 9], 10, Scalar::from_u64(1));
    builder.set_metadata(vec![1, 2, 3]);
    let tx = builder.build().unwrap();
    let pc = PedersenCommitment::new();
    assert_eq!(tx.inputs[0].prev_tx_hash, [7u8; 32]);
    assert_eq!(tx.inputs[0].prev_output_index, 3);
    assert_eq!(tx.inputs[0].commitment, pc.commit(10, &Scalar::from_u64(1)));
    assert!(tx.inputs[0].signature.is_empty());
    assert_eq!(tx.outputs[0].address, vec![9, 9]);
    assert_eq!(tx.outputs[0].encrypted_amount, None);
    assert_eq!(tx.metadata, Some(vec![1, 2, 3]));
    assert_eq!(tx.verify(), Ok(true));
}

#[test]
fn wire_round_trip_keeps_every_field() {
    let mut tx = simple_send_with_change();
    tx.metadata = Some(vec![0xde, 0xad]);
    tx.outputs[1].encrypted_amount = Some(vec![1, 2, 3]);
    tx.inputs[0].signature = vec![4, 5];
    let bytes = tx.to_bytes().unwrap();
    let back = PrivateTransaction::from_bytes(&bytes).unwrap();
    assert_eq!(back, tx);
    assert_eq!(back.to_bytes().unwrap(), bytes);
}

#[test]
fn wire_rejects_malformed_bytes() {
    let tx = simple_send_with_change();
    let bytes = tx.to_bytes().unwrap();
    let mut longer = bytes.clone();
    longer.push(0);
    assert!(matches!(PrivateTransaction::from_bytes(&longer), Err(CoreError::Serialization(_))));
    assert!(matches!(PrivateTransaction::from_bytes(&bytes[..bytes.len() - 1]), Err(CoreError::Serialization(_))));
    let mut bad_point = bytes.clone();
    for b in &mut bad_point[8 + 36..8 + 68] {
        *b = 0xff;
    }
    assert!(matches!(PrivateTransaction::from_bytes(&bad_point), Err(CoreError::Serialization(_))));
    assert!(matches!(PrivateTransaction::from_bytes(&[]), Err(CoreError::Serialization(_))));
}

#[test]
fn wire_layout_of_an_empty_transaction() {
    let tx = PrivateTransaction { inputs: vec![], outputs: vec![], range_proofs: vec![], fee: 258, metadata: None };
    let bytes = tx.to_bytes().unwrap();
    let mut expected = vec![0u8; 24];
    expected.extend_from_slice(&[2, 1, 0, 0, 0, 0, 0, 0, 0]);
    assert_eq!(bytes, expected);
    assert_eq!(PrivateTransaction::from_bytes(&bytes).unwrap(), tx);
}

#[test]
fn utxo_keeps_its_opening() {
    let pc = PedersenCommitment::new();
    let r = Scalar::from_u64(5);
    let c = pc.commit(42, &r);
    let u = stealth_core::UTXO::new([1u8; 32], 2, 42, c, r, vec![3]);
    assert_eq!(u.value, 42);
    assert_eq!(u.commitment, c);
    assert_eq!(u.blinding, r);
    assert_eq!(u.address, vec![3]);
    assert_eq!(u.output_index, 2);
}

#[test]
fn hand_built_transaction_with_invalid_point_does_not_balance() {
    let pc = PedersenCommitment::new();
    let bad = stealth_core::Commitment { point: Point { bytes: [0xff; 32] } };
    let good = pc.commit(1, &Scalar::zero());
    let tx = PrivateTransaction {
        inputs: vec![TransactionInput { prev_tx_hash: [0; 32], prev_output_index: 0, commitment: bad, signature: vec![] }],
        outputs: vec![TransactionOutput { address: vec![], commitment: good, encrypted_amount: None }],
        range_proofs: vec![RangeProof::prove(1, &Scalar::zero(), 8).unwrap()],
        fee: 0,
        metadata: None,
    };
    assert!(!tx.verify_balance());
    assert_eq!(Point::base_mul(&Scalar::zero()), pc.commit(0, &Scalar::zero()).point);
}

#[test]
fn default_builder_is_empty() {
    let builder = TransactionBuilder::default();
    assert_eq!(builder.estimate_size(), 50);
    assert_eq!(builder.calculate_change_blinding(), Scalar::zero());
    assert!(matches!(builder.build(), Ok(tx) if tx.inputs.is_empty() && tx.outputs.is_empty()));
}

#[test]
fn overflowing_sums_are_reported_in_full() {
    let mut builder = TransactionBuilder::new();
    builder.add_input([0u8; 32], 0, u64::MAX, random_scalar());
    builder.add_input([1u8; 32], 0, 1, random_scalar());
    builder.add_output(vec![1], 7);
    builder.set_fee(3);
    match builder.build() {
        Err(CoreError::InvalidParameter(msg)) => {
            assert_eq!(msg, "Unbalanced transaction: inputs=18446744073709551616, outputs=7, fee=3");
        },
        _ => panic!("expected an invalid parameter error"),
    }
}
