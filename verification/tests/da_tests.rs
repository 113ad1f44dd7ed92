use qrap::crypto::poseidon256;
use qrap::da::celestia::{latest_height_at, pfb_tx_hash, BlobstreamLightClient, BlobstreamXHeader};
use qrap::da::{
    Blob, BlobstreamHeader, BlobstreamVerifier, DaError, InclusionProof, MockDaClient, Namespace,
};

#[test]
fn test_namespace_creation() {
    let ns = Namespace::new(b"total-protocol");
    assert_eq!(&ns.0[..14], b"total-protocol");
}

#[test]
fn test_blob_commitment() {
    let ns = Namespace::new(b"test");
    let blob1 = Blob::new(ns.clone(), vec![1, 2, 3]);
    let blob2 = Blob::new(ns.clone(), vec![1, 2, 3]);
    let blob3 = Blob::new(ns.clone(), vec![3, 2, 1]);

    assert_eq!(blob1.commitment(), blob2.commitment());
    assert_ne!(blob1.commitment(), blob3.commitment());
}

#[test]
fn test_mock_submit_and_retrieve() {
    let ns = Namespace::new(b"qrap-test");
    let mut client = MockDaClient::new(ns.clone());

    let blob = Blob::new(ns.clone(), vec![1, 2, 3, 4, 5]);
    let commitment = client.submit_blob(blob.clone()).unwrap();

    let retrieved = client.get_blob(&commitment, &ns).unwrap();
    assert_eq!(retrieved.data, blob.data);
    assert_eq!(client.latest_height(), 2);
}

#[test]
fn test_inclusion_proof() {
    let ns = Namespace::new(b"qrap-test");
    let mut client = MockDaClient::new(ns.clone());

    let blob = Blob::new(ns.clone(), vec![9, 8, 7]);
    let commitment = client.submit_blob(blob).unwrap();

    let proof = InclusionProof {
        blob_commitment: commitment,
        row_roots: vec![[0u8; 32]],
        column_roots: vec![[0u8; 32]],
        row_index: 0,
        column_index: 0,
        namespace: ns.clone(),
    };

    assert!(client.verify_inclusion(&proof).unwrap());
}

#[test]
fn test_blobstream_header_chain() {
    let trusted_root = [0xAA; 32];
    let verifier = BlobstreamVerifier::new(0, trusted_root);

    let h1 = BlobstreamHeader {
        height: 1,
        data_root: poseidon256(b"header1"),
        prev_hash: trusted_root,
        timestamp: 1000,
    };

    let h2 = BlobstreamHeader {
        height: 2,
        data_root: poseidon256(b"header2"),
        prev_hash: h1.data_root,
        timestamp: 2000,
    };

    let result = verifier.verify_header_chain(&[h1, h2]);
    assert!(result.is_ok());
}

#[test]
fn test_celestia_client_submit_pfb() {
    let ns = Namespace::new(b"qrap-test");
    let blob = Blob::new(ns, vec![1, 2, 3, 4, 5]);
    let tx_hash = pfb_tx_hash(&blob);
    assert!(tx_hash.starts_with("0x"));
    assert_eq!(tx_hash.len(), 34);
}

#[test]
fn test_celestia_client_get_latest_height() {
    let height = latest_height_at(1_700_000_000);
    assert!(height >= 1000000);
}

#[test]
fn test_blobstream_invalid_height() {
    let trusted_root = [0xAA; 32];
    let verifier = BlobstreamVerifier::new(10, trusted_root);
    let h1 = BlobstreamHeader {
        height: 12,
        data_root: poseidon256(b"header1"),
        prev_hash: trusted_root,
        timestamp: 1000,
    };
    let result = verifier.verify_header_chain(&[h1]);
    assert!(matches!(result, Err(DaError::InvalidProof)));
}

#[test]
fn test_blobstream_invalid_prev_hash() {
    let trusted_root = [0xAA; 32];
    let verifier = BlobstreamVerifier::new(0, trusted_root);
    let h1 = BlobstreamHeader {
        height: 1,
        data_root: poseidon256(b"header1"),
        prev_hash: [0xBB; 32],
        timestamp: 1000,
    };
    let result = verifier.verify_header_chain(&[h1]);
    assert_eq!(result.unwrap(), false);
}

#[test]
fn test_blobstream_empty_chain() {
    let trusted_root = [0xAA; 32];
    let verifier = BlobstreamVerifier::new(0, trusted_root);
    let result = verifier.verify_header_chain(&[]);
    assert_eq!(result.unwrap(), true);
}

#[test]
fn test_blobstream_verify_blob_namespace_mismatch() {
    let ns1 = Namespace::new(b"ns1");
    let ns2 = Namespace::new(b"ns2");
    let blob = Blob::new(ns1.clone(), vec![1, 2, 3]);
    let header = BlobstreamHeader {
        height: 1,
        data_root: poseidon256(b"header1"),
        prev_hash: [0xAA; 32],
        timestamp: 1000,
    };
    let proof = InclusionProof {
        blob_commitment: blob.commitment(),
        row_roots: vec![[0u8; 32]],
        column_roots: vec![[0u8; 32]],
        row_index: 0,
        column_index: 0,
        namespace: ns2,
    };
    let verifier = BlobstreamVerifier::new(0, [0xAA; 32]);
    let result = verifier.verify_blob_in_header(&blob, &header, &proof);
    assert!(matches!(result, Err(DaError::NamespaceMismatch)));
}

#[test]
fn namespace_is_truncated_and_padded() {
    let long = Namespace::new(&[7u8; 40]);
    assert_eq!(long.0, [7u8; 29]);
    let short = Namespace::new(b"ab");
    assert_eq!(&short.0[..2], b"ab");
    assert_eq!(&short.0[2..], &[0u8; 27]);
    let mut expected = String::from("6162");
    expected.push_str(&"00".repeat(27));
    assert_eq!(short.as_hex(), expected);
}

#[test]
fn blob_commitment_and_size() {
    let ns = Namespace::new(b"x");
    let blob = Blob::new(ns.clone(), vec![1, 2, 3]);
    let mut input = ns.0.to_vec();
    input.extend_from_slice(&[1, 2, 3]);
    assert_eq!(blob.commitment(), poseidon256(&input));
    assert_eq!(blob.size_bytes(), 33);
    assert_eq!(blob.share_version, 0);
    let copy = blob.duplicate();
    assert_eq!(copy.data, blob.data);
    assert_eq!(copy.namespace, blob.namespace);
}

#[test]
fn mock_client_refuses_other_namespaces_and_unknown_blobs() {
    let ns = Namespace::new(b"mine");
    let other = Namespace::new(b"other");
    let mut client = MockDaClient::new(ns.clone()).with_latency(10);
    assert_eq!(client.latency_ms(), 10);
    assert!(matches!(
        client.submit_blob(Blob::new(other.clone(), vec![1])),
        Err(DaError::NamespaceMismatch)
    ));
    assert_eq!(client.latest_height(), 1);
    let c = client.submit_blob(Blob::new(ns.clone(), vec![1])).unwrap();
    match client.get_blob(&c, &other) {
        Err(DaError::BlobNotFound(msg)) => assert_eq!(msg, hex::encode(c)),
        _ => panic!("expected BlobNotFound"),
    }
    match client.get_blob(&[0u8; 32], &ns) {
        Err(DaError::BlobNotFound(msg)) => assert_eq!(msg, "00".repeat(32)),
        _ => panic!("expected BlobNotFound"),
    }
    let proof = InclusionProof {
        blob_commitment: [0u8; 32],
        row_roots: vec![],
        column_roots: vec![],
        row_index: 0,
        column_index: 0,
        namespace: ns.clone(),
    };
    assert_eq!(client.verify_inclusion(&proof).unwrap(), false);
    let foreign = InclusionProof { namespace: other, ..proof };
    assert!(matches!(client.verify_inclusion(&foreign), Err(DaError::NamespaceMismatch)));
}

#[test]
fn resubmitting_a_blob_keeps_one_copy_and_advances_height() {
    let ns = Namespace::new(b"n");
    let mut client = MockDaClient::new(ns.clone());
    let b = Blob::new(ns.clone(), vec![5, 5]);
    let c1 = client.submit_blob(b.clone()).unwrap();
    let c2 = client.submit_blob(b).unwrap();
    assert_eq!(c1, c2);
    assert_eq!(client.latest_height(), 3);
    assert_eq!(client.get_blob(&c1, &ns).unwrap().data, vec![5, 5]);
}

#[test]
fn blob_with_wrong_commitment_is_an_invalid_proof() {
    let ns = Namespace::new(b"n");
    let blob = Blob::new(ns.clone(), vec![1]);
    let header = BlobstreamHeader { height: 1, data_root: [0; 32], prev_hash: [0; 32], timestamp: 0 };
    let proof = InclusionProof {
        blob_commitment: [9; 32],
        row_roots: vec![],
        column_roots: vec![],
        row_index: 0,
        column_index: 0,
        namespace: ns.clone(),
    };
    let v = BlobstreamVerifier::new(0, [0; 32]);
    assert!(matches!(v.verify_blob_in_header(&blob, &header, &proof), Err(DaError::InvalidProof)));
    let good = InclusionProof { blob_commitment: blob.commitment(), ..proof };
    assert_eq!(v.verify_blob_in_header(&blob, &header, &good).unwrap(), true);
}

#[test]
fn header_encodings_match_bincode() {
    let h = BlobstreamHeader { height: 3, data_root: [1; 32], prev_hash: [2; 32], timestamp: 99 };
    assert_eq!(h.encode(), bincode::serialize(&(3u64, [1u8; 32], [2u8; 32], 99u64)).unwrap());
    let x = BlobstreamXHeader {
        height: 4,
        data_root: [1; 32],
        prev_hash: [2; 32],
        timestamp: 5,
        validator_set_hash: [3; 32],
    };
    assert_eq!(
        x.encode(),
        bincode::serialize(&(4u64, [1u8; 32], [2u8; 32], 5u64, [3u8; 32])).unwrap()
    );
}

#[test]
fn light_client_checks_heights_and_links() {
    let root = [0xAA; 32];
    let client = BlobstreamLightClient::new(5, root);
    assert_eq!(client.verify_header_chain(&[]).unwrap(), true);
    let wrong_height = BlobstreamXHeader {
        height: 7,
        data_root: [1; 32],
        prev_hash: root,
        timestamp: 0,
        validator_set_hash: [0; 32],
    };
    assert_eq!(client.verify_header_chain(&[wrong_height]).unwrap(), false);
    let wrong_root = BlobstreamXHeader {
        height: 6,
        data_root: [1; 32],
        prev_hash: root,
        timestamp: 0,
        validator_set_hash: [0; 32],
    };
    assert_eq!(client.verify_header_chain(&[wrong_root]).unwrap(), false);
}

#[test]
fn pfb_hash_is_prefix_of_commitment() {
    let blob = Blob::new(Namespace::new(b"q"), vec![1, 2]);
    let c = blob.commitment();
    assert_eq!(pfb_tx_hash(&blob), format!("0x{}", hex::encode(&c[..16])));
    assert_eq!(latest_height_at(25), 1000002);
}
