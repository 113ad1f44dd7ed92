//! Celestia specifics: Blobstream X headers and their light client, and
//! the identifiers the Celestia client hands out.
use vstd::prelude::*;
use crate::bytes::push_u64_le;
use crate::crypto::{poseidon, poseidon256, extend_bytes, hash_eq, copy_hash};
use crate::da::{Blob, InclusionProof, DaError, same_namespace, hex_chars, hex_encode};
use crate::utxo::u64_le;

verus! {

/// Blobstream X header for Celestia.
#[derive(Clone, Debug)]
pub struct BlobstreamXHeader {
    pub height: u64,
    pub data_root: crate::crypto::Hash,
    pub prev_hash: crate::crypto::Hash,
    pub timestamp: u64,
    pub validator_set_hash: crate::crypto::Hash,
}

impl BlobstreamXHeader {
    /// Canonical bytes: height, data root, previous hash, timestamp,
    /// validator-set hash; numbers as eight little-endian bytes.
    pub open spec fn spec_encoding(self) -> Seq<u8> {
        u64_le(self.height as nat) + self.data_root@ + self.prev_hash@ + u64_le(self.timestamp as nat)
            + self.validator_set_hash@
    }

    /// The canonical bytes of the header.
    pub fn encode(&self) -> (out: Vec<u8>)
        ensures
            out@ == self.spec_encoding(),
    {
        let mut out: Vec<u8> = Vec::new();
        push_u64_le(&mut out, self.height);
        extend_bytes(&mut out, self.data_root.as_slice());
        extend_bytes(&mut out, self.prev_hash.as_slice());
        push_u64_le(&mut out, self.timestamp);
        extend_bytes(&mut out, self.validator_set_hash.as_slice());
        assert(out@ =~= self.spec_encoding());
        out
    }
}

/// Every header is at height `next`, its data root is the hash of its
/// canonical bytes, and its previous hash is the data root before it
/// (`prev` for the first).
pub open spec fn x_chain_ok(headers: Seq<BlobstreamXHeader>, next: int, prev: Seq<u8>) -> bool
    decreases headers.len(),
{
    headers.len() == 0 || {
        &&& headers[0].height == next
        &&& poseidon(headers[0].spec_encoding()) == headers[0].data_root@
        &&& headers[0].prev_hash@ == prev
        &&& x_chain_ok(headers.drop_first(), next, headers[0].data_root@)
    }
}

/// Blobstream light client: checks headers against a trusted one.
pub struct BlobstreamLightClient {
    pub trusted_height: u64,
    pub trusted_root: crate::crypto::Hash,
}

impl BlobstreamLightClient {
    /// Light client trusting the header at `trusted_height` with data root `trusted_root`.
    pub fn new(trusted_height: u64, trusted_root: crate::crypto::Hash) -> (c: Self)
        ensures
            c.trusted_height == trusted_height,
            c.trusted_root == trusted_root,
    {
        BlobstreamLightClient { trusted_height, trusted_root }
    }

    /// Checks a header chain from the Blobstream contract: valid when every
    /// header is at the height after the trusted one and the links hold
    /// from the trusted root (an empty chain is valid).
    pub fn verify_header_chain(&self, headers: &[BlobstreamXHeader]) -> (r: Result<bool, DaError>)
        requires
            headers@.len() > 0 ==> self.trusted_height < u64::MAX,
        ensures
            r == Ok::<bool, DaError>(
                x_chain_ok(headers@, self.trusted_height + 1, self.trusted_root@),
            ),
    {
        if headers.len() == 0 {
            return Ok(true);
        }
        let n = headers.len();
        let next = self.trusted_height + 1;
        let mut prev_root = copy_hash(&self.trusted_root);
        let mut i: usize = 0;
        assert(headers@.subrange(0, n as int) =~= headers@);
        while i < n
            invariant
                0 <= i <= n,
                n == headers@.len(),
                next == self.trusted_height + 1,
                x_chain_ok(headers@, next as int, self.trusted_root@) == x_chain_ok(
                    headers@.subrange(i as int, n as int),
                    next as int,
                    prev_root@,
                ),
            decreases n - i,
        {
            let ghost rest = headers@.subrange(i as int, n as int);
            assert(rest[0] == headers@[i as int]);
            assert(rest.drop_first() =~= headers@.subrange(i + 1, n as int));
            if headers[i].height != next {
                assert(!x_chain_ok(rest, next as int, prev_root@));
                return Ok(false);
            }
            let bytes = headers[i].encode();
            let computed = poseidon256(bytes.as_slice());
            if !hash_eq(&computed, &headers[i].data_root) {
                assert(!x_chain_ok(rest, next as int, prev_root@));
                return Ok(false);
            }
            if !hash_eq(&headers[i].prev_hash, &prev_root) {
                assert(!x_chain_ok(rest, next as int, prev_root@));
                return Ok(false);
            }
            prev_root = copy_hash(&headers[i].data_root);
            i = i + 1;
        }
        assert(headers@.subrange(n as int, n as int).len() == 0);
        Ok(true)
    }

    /// Checks a blob against its inclusion proof: the proof must commit to
    /// the blob (else `InvalidProof`) and name its namespace (else
    /// `NamespaceMismatch`).
    pub fn verify_blob(&self, blob: &Blob, header: &BlobstreamXHeader, proof: &InclusionProof) -> (r:
        Result<bool, DaError>)
        ensures
            r == if proof.blob_commitment@ != blob.spec_commitment() {
                Err(DaError::InvalidProof)
            } else if proof.namespace.0@ != blob.namespace.0@ {
                Err(DaError::NamespaceMismatch)
            } else {
                Ok(true)
            },
    {
        let c = blob.commitment();
        if !hash_eq(&proof.blob_commitment, &c) {
            return Err(DaError::InvalidProof);
        }
        if !same_namespace(&proof.namespace, &blob.namespace) {
            return Err(DaError::NamespaceMismatch);
        }
        Ok(true)
    }
}

/// Identifier of a PayForBlobs submission: `0x` and the first 16 bytes of
/// the blob's commitment in lowercase hexadecimal.
pub fn pfb_tx_hash(blob: &Blob) -> (s: String)
    ensures
        s@ == seq!['0', 'x'] + hex_chars(blob.spec_commitment().take(16)),
{
    let c = blob.commitment();
    let mut first: Vec<u8> = Vec::new();
    let mut i: usize = 0;
    while i < 16
        invariant
            0 <= i <= 16,
            c@.len() == 32,
            first@ == c@.take(i as int),
        decreases 16 - i,
    {
        first.push(c[i]);
        i = i + 1;
        assert(first@ =~= c@.take(i as int));
    }
    let h = hex_encode(first.as_slice());
    let prefix = "0x".to_owned();
    proof {
        reveal_strlit("0x");
    }
    prefix.concat(h.as_str())
}

/// Simulated Celestia height at `unix_secs`: one block per ten seconds
/// from height 1000000.
pub fn latest_height_at(unix_secs: i64) -> (h: u64)
    ensures
        h == 1000000 + (unix_secs as u64) / 10,
{
    1000000 + (unix_secs as u64) / 10
}

} // verus!
