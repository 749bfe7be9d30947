use blake2::Digest;
use stealth_core::commitments::PedersenCommitment;
use stealth_core::group::{hash_to_scalar, Scalar};
use stealth_core::Point;
use stealth_core::wallet::{hash_mnemonic, mnemonic_matches};
use stealth_core::{CoreError, RangeProof, StoredTransaction, TransactionRecord, AUTHORS, VERSION};

type DalekScalar = curve25519_dalek::scalar::Scalar;

#[test]
fn test_version() {
    assert!(!VERSION.is_empty());
    assert!(!AUTHORS.is_empty());
}

fn g() -> Point {
    Point::base_mul(&Scalar::from_u64(1))
}

#[test]
fn commitments_add_up() {
    let pc = PedersenCommitment::new();
    let r1 = Scalar::from_u64(1111);
    let r2 = Scalar::from_bytes_mod_order([0xab; 32]);
    let c1 = pc.commit(30, &r1);
    let c2 = pc.commit(12, &r2);
    let sum = PedersenCommitment::add_commitments(&c1, &c2);
    assert_eq!(sum, pc.commit(42, &r1.plus(&r2)));
    let diff = PedersenCommitment::subtract_commitments(&c1, &c2);
    assert_eq!(PedersenCommitment::add_commitments(&diff, &c2), c1);
}

#[test]
fn commitment_identities() {
    let pc = PedersenCommitment::new();
    let identity = Point::base_mul(&Scalar::zero());
    assert_eq!(pc.commit(0, &Scalar::zero()).point, identity);
    let c = pc.commit(77, &Scalar::from_u64(9));
    assert_eq!(PedersenCommitment::subtract_commitments(&c, &c).point, identity);
    assert!(identity.is_identity());
    assert!(!c.point.is_identity());
}

#[test]
fn commitment_is_value_times_h_plus_blinding_times_g() {
    let pc = PedersenCommitment::new();
    let c = pc.commit(5, &Scalar::from_u64(3));
    let expected = pc.h.times(&Scalar::from_u64(5)).plus(&g().times(&Scalar::from_u64(3)));
    assert_eq!(c.point, expected);
    assert_ne!(pc.h, g());
    assert_eq!(pc.h, PedersenCommitment::new().h);
}

#[test]
fn generator_h_is_hashed_from_g() {
    let mut seed = b"PedersenH".to_vec();
    seed.extend_from_slice(curve25519_dalek::constants::RISTRETTO_BASEPOINT_COMPRESSED.as_bytes());
    let digest = blake2::Blake2b512::digest(&seed);
    let mut wide = [0u8; 64];
    wide.copy_from_slice(&digest);
    let h = curve25519_dalek::ristretto::RistrettoPoint::from_uniform_bytes(&wide).compress().to_bytes();
    assert_eq!(PedersenCommitment::new().h.bytes, h);
    assert_eq!(Point::from_uniform_bytes(&wide).bytes, h);
}

#[test]
fn range_proof_verifies_for_its_commitment_only() {
    let pc = PedersenCommitment::new();
    let r = Scalar::from_bytes_mod_order([7u8; 32]);
    let proof = RangeProof::prove(1234, &r, 64).unwrap();
    assert_eq!(proof.bits.len(), 64);
    assert!(proof.verify(&pc.commit(1234, &r)));
    assert!(!proof.verify(&pc.commit(1235, &r)));
    assert!(!proof.verify(&pc.commit(1234, &Scalar::from_u64(8))));
}

#[test]
fn range_proof_size_limits() {
    let r = Scalar::from_u64(1);
    assert!(matches!(RangeProof::prove(5, &r, 0), Err(CoreError::Commitment(_))));
    assert!(matches!(RangeProof::prove(5, &r, 65), Err(CoreError::Commitment(_))));
    assert!(matches!(RangeProof::prove(256, &r, 8), Err(CoreError::Commitment(_))));
    let pc = PedersenCommitment::new();
    let small = RangeProof::prove(255, &r, 8).unwrap();
    assert_eq!(small.bits.len(), 8);
    assert!(small.verify(&pc.commit(255, &r)));
    let max = RangeProof::prove(u64::MAX, &r, 64).unwrap();
    assert!(max.verify(&pc.commit(u64::MAX, &r)));
    let zero = RangeProof::prove(0, &Scalar::zero(), 1).unwrap();
    assert!(zero.verify(&pc.commit(0, &Scalar::zero())));
}

#[test]
fn range_proof_rejects_altered_parts() {
    let pc = PedersenCommitment::new();
    let r = Scalar::from_u64(99);
    let c = pc.commit(6, &r);
    let proof = RangeProof::prove(6, &r, 4).unwrap();
    assert!(proof.verify(&c));
    let mut altered = proof.clone();
    altered.bits[1].z0 = altered.bits[1].z0.plus(&Scalar::from_u64(1));
    assert!(!altered.verify(&c));
    let mut swapped = proof.clone();
    swapped.bits.swap(0, 1);
    assert!(!swapped.verify(&c));
    let empty = RangeProof { bits: vec![] };
    assert!(!empty.verify(&c));
}

fn dalek(s: &Scalar) -> DalekScalar {
    DalekScalar::from_bytes_mod_order(s.bytes)
}

#[test]
fn scalar_arithmetic_is_modular() {
    let a = Scalar::from_bytes_mod_order([0x11; 32]);
    let b = Scalar::from_bytes_mod_order([0xee; 32]);
    assert_eq!(a.plus(&b).to_bytes(), (dalek(&a) + dalek(&b)).to_bytes());
    assert_eq!(a.minus(&b).to_bytes(), (dalek(&a) - dalek(&b)).to_bytes());
    assert_eq!(a.times(&b).to_bytes(), (dalek(&a) * dalek(&b)).to_bytes());
    assert_eq!(Scalar::from_u64(5).minus(&Scalar::from_u64(7)).plus(&Scalar::from_u64(2)), Scalar::zero());
    assert_eq!(Scalar::from_u64(6).times(&Scalar::from_u64(7)), Scalar::from_u64(42));
    assert_eq!(Scalar::from_u64(258).to_bytes()[..2], [2, 1]);
    assert_ne!(Scalar::from_bytes_mod_order([0xff; 32]).bytes, [0xff; 32]);
    assert_eq!(
        Scalar::from_bytes_mod_order_wide(&[0xff; 64]).bytes,
        DalekScalar::from_bytes_mod_order_wide(&[0xff; 64]).to_bytes()
    );
}

#[test]
fn hash_to_scalar_is_wide_blake2b() {
    let digest = blake2::Blake2b512::digest(b"abc");
    let mut wide = [0u8; 64];
    wide.copy_from_slice(&digest);
    assert_eq!(hash_to_scalar(b"abc").bytes, DalekScalar::from_bytes_mod_order_wide(&wide).to_bytes());
}

#[test]
fn group_operations() {
    let two = Scalar::from_u64(2);
    let three = Scalar::from_u64(3);
    assert_eq!(g().times(&two), g().plus(&g()));
    assert_eq!(Point::base_mul(&three).minus(&g()), Point::base_mul(&two));
    assert_eq!(Point::base_mul(&two).times(&three), Point::base_mul(&Scalar::from_u64(6)));
    assert_eq!(g().bytes, curve25519_dalek::constants::RISTRETTO_BASEPOINT_COMPRESSED.to_bytes());
    assert_eq!(Point::from_bytes(g().bytes), Some(g()));
    assert_eq!(Point::from_bytes([0xff; 32]), None);
    assert!(g().equals(&Point::base_mul(&Scalar::from_u64(1))));
    assert!(!g().equals(&Point::base_mul(&two)));
}

#[test]
fn mnemonic_check_value() {
    assert_eq!(hash_mnemonic("abc"), "ba7816bf8f01cfea414140de5dae2223b00361a396177a9cb410ff61f20015ad");
    let stored = hash_mnemonic("abandon art");
    assert!(mnemonic_matches(&stored, "abandon art"));
    assert!(!mnemonic_matches(&stored, "abandon abandon"));
}

#[test]
fn stored_transaction_from_record() {
    let record = TransactionRecord {
        tx_hash: "0xabc123".to_string(),
        chain: "ethereum".to_string(),
        tx_type: "send".to_string(),
        amount: "1.5".to_string(),
        from_address: Some("0x1234".to_string()),
        to_address: Some("0x5678".to_string()),
        status: "confirmed".to_string(),
        timestamp: 1700000000,
        block_number: Some(18500000),
        gas_used: Some("21000".to_string()),
    };
    let stored = StoredTransaction::from_record(record.clone(), 7);
    assert_eq!(stored.id, 0);
    assert_eq!(stored.account_id, 7);
    assert_eq!(stored.tx_hash, "0xabc123");
    assert_eq!(stored.block_number, Some(18500000));
    assert_eq!(stored.gas_used, record.gas_used);
}
