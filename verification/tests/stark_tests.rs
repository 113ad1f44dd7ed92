use qrap::crypto::poseidon256;
use qrap::stark::{PlonkProver, QrapStarkProver, SpendProofData};

fn verify_spend(proof: &[u8], commitment: &[u8; 32]) -> Result<bool, bincode::Error> {
    let (public_commitment, hash_chain, version): ([u8; 32], Vec<u8>, u32) =
        bincode::deserialize(proof)?;
    let data = SpendProofData { public_commitment, hash_chain, version };
    Ok(QrapStarkProver::check_spend(&data, commitment))
}

#[test]
fn test_prove_spend_deterministic() {
    let secret = b"my-secret-key";
    let commitment = poseidon256(b"public-commitment");
    let p1 = QrapStarkProver::prove_spend(secret, &commitment).unwrap();
    let p2 = QrapStarkProver::prove_spend(secret, &commitment).unwrap();
    assert_eq!(p1, p2);
}

#[test]
fn test_prove_spend_different_secrets() {
    let c1 = poseidon256(b"commitment-1");
    let c2 = poseidon256(b"commitment-2");
    let p1 = QrapStarkProver::prove_spend(b"secret-1", &c1).unwrap();
    let p2 = QrapStarkProver::prove_spend(b"secret-2", &c2).unwrap();
    assert_ne!(p1, p2);
}

#[test]
fn test_prove_spend_non_empty() {
    let secret = b"test";
    let commitment = poseidon256(b"commit");
    let proof = QrapStarkProver::prove_spend(secret, &commitment).unwrap();
    assert!(!proof.is_empty());
}

#[test]
fn test_verify_spend_placeholder() {
    let secret = b"secret";
    let commitment = poseidon256(b"commit");
    let proof = QrapStarkProver::prove_spend(secret, &commitment).unwrap();
    let result = verify_spend(&proof, &commitment);
    assert!(result.is_ok());
}

#[test]
fn spend_proof_layout_matches_bincode() {
    let secret = b"s";
    let commitment = [7u8; 32];
    let mut chain = Vec::new();
    let mut current = secret.to_vec();
    for _ in 0..8 {
        current = poseidon256(&current).to_vec();
        chain.extend_from_slice(&current);
    }
    assert_eq!(QrapStarkProver::spend_hash_chain(secret), chain);
    let expected = bincode::serialize(&(commitment, chain, 0u32)).unwrap();
    assert_eq!(QrapStarkProver::prove_spend(secret, &commitment).unwrap(), expected);
    assert_eq!(QrapStarkProver::proof_size(&expected), 32 + 8 + 256 + 4);
    assert_eq!(verify_spend(&expected, &commitment).unwrap(), true);
    assert_eq!(verify_spend(&expected, &[8u8; 32]).unwrap(), false);
    assert!(QrapStarkProver::is_placeholder());
}

#[test]
fn short_chains_are_refused() {
    let data = SpendProofData { public_commitment: [1; 32], hash_chain: vec![0; 255], version: 0 };
    assert!(!QrapStarkProver::check_spend(&data, &[1; 32]));
    let data = SpendProofData { public_commitment: [1; 32], hash_chain: vec![0; 256], version: 3 };
    assert!(QrapStarkProver::check_spend(&data, &[1; 32]));
    let encoded = data.encode();
    assert_eq!(encoded, bincode::serialize(&([1u8; 32], vec![0u8; 256], 3u32)).unwrap());
}

#[test]
fn test_plonk_prover_new() {
    let prover = PlonkProver::new();
    assert!(prover.verify(&[], &[]));
}

#[test]
fn test_plonk_prove_cpu() {
    let prover = PlonkProver::new();
    let proof = prover.prove(b"circuit", b"witness");
    assert!(!proof.is_empty());
}

#[test]
fn plonk_cpu_proof_is_circuit_then_witness() {
    let mut prover = PlonkProver::default();
    assert!(prover.init_f1("image.xclbin").is_ok());
    assert_eq!(prover.prove(&[1, 2], &[3]), vec![1, 2, 3]);
}
