use qrap::crypto::{poseidon256, sign_placeholder, verify_placeholder, LweCommitment, MlKemKeypair};

#[test]
fn test_poseidon_deterministic() {
    assert_eq!(poseidon256(b"test"), poseidon256(b"test"));
}

#[test]
fn test_lwe_commitment_hash() {
    assert_eq!(LweCommitment::new_random().hash().len(), 32);
}

#[test]
fn test_ml_kem_generate() {
    let kp = MlKemKeypair::generate();
    assert_eq!(kp.public_key.len(), 1568);
    assert_eq!(kp.secret_key.len(), 3168);
}

#[test]
fn test_poseidon_different_inputs() {
    let h1 = poseidon256(b"foo");
    let h2 = poseidon256(b"bar");
    assert_ne!(h1, h2, "Different inputs must produce different hashes");
}

#[test]
fn test_poseidon_empty_input() {
    let h = poseidon256(b"");
    assert_eq!(h.len(), 32, "Empty input must produce 32-byte hash");
}

#[test]
fn test_lwe_commitment_deterministic_hash() {
    let c1 = LweCommitment::new_random();
    let c2 = c1.clone();
    assert_eq!(c1.hash(), c2.hash(), "Same commitment must have same hash");
}

#[test]
fn test_ml_dsa_sign_and_verify() {
    let msg = b"hello qrap";
    let kp = MlKemKeypair::generate();
    let sig = sign_placeholder(msg, &kp.secret_key);
    assert!(verify_placeholder(msg, &sig, &kp.public_key));
}

#[test]
fn test_ml_dsa_tampered_msg_fails() {
    let msg = b"hello qrap";
    let kp = MlKemKeypair::generate();
    let sig = sign_placeholder(msg, &kp.secret_key);
    assert!(!verify_placeholder(b"tampered", &sig, &kp.public_key));
}

#[test]
fn poseidon_is_tagged_sha3() {
    // SHA3-256 of the domain tag alone, and of the tag followed by "test"
    assert_eq!(
        hex::encode(poseidon256(b"")),
        "515c493fd3855cee4954002794207c26a95c0509d256b404eb29ea8896438720"
    );
    assert_eq!(
        hex::encode(poseidon256(b"test")),
        "c524d81840e9952f846c646bc83c0e9b45b5bbb905b09aaf8ef44bc416d4dced"
    );
}

#[test]
fn lwe_commitment_bytes_are_little_endian_words() {
    let c = LweCommitment { a: vec![1, 0x0102030405060708], b: vec![u64::MAX] };
    let bytes = c.to_bytes();
    assert_eq!(bytes.len(), 24);
    assert_eq!(&bytes[0..8], &[1, 0, 0, 0, 0, 0, 0, 0]);
    assert_eq!(&bytes[8..16], &[8, 7, 6, 5, 4, 3, 2, 1]);
    assert_eq!(&bytes[16..24], &[0xff; 8]);
    assert_eq!(c.hash(), poseidon256(&bytes));
}

#[test]
fn placeholder_signature_is_message_hash() {
    let sig = sign_placeholder(b"msg", b"sk");
    assert_eq!(sig.bytes, poseidon256(b"msg").to_vec());
}
