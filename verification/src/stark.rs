//! Spend proofs (placeholder STARK: a Poseidon hash chain over the
//! secret, bound to the public commitment) and the CPU PLONK prover.
use vstd::prelude::*;
use crate::bytes::{le_bytes, push_u64_le};
use crate::crypto::{poseidon, poseidon256, extend_bytes};
use crate::utxo::u64_le;

verus! {

/// Bytes of a spend proof.
pub type StarkProofBytes = Vec<u8>;

/// Errors of the spend prover.
#[derive(Debug)]
pub enum StarkError {
    Generation(String),
    Verification(String),
    Serialization(String),
}

/// Links of the spend hash chain.
pub const CHAIN_LINKS: usize = 8;

/// The `k`-th link of the chain from `secret`: Poseidon applied `k` times.
pub open spec fn chain_link(secret: Seq<u8>, k: nat) -> Seq<u8>
    decreases k,
{
    if k == 0 {
        secret
    } else {
        poseidon(chain_link(secret, (k - 1) as nat))
    }
}

/// The first `k` links after the secret, concatenated.
pub open spec fn chain_prefix(secret: Seq<u8>, k: nat) -> Seq<u8>
    decreases k,
{
    if k == 0 {
        Seq::empty()
    } else {
        chain_prefix(secret, (k - 1) as nat) + chain_link(secret, k)
    }
}

/// Data of a spend proof.
#[derive(Clone, Debug)]
pub struct SpendProofData {
    pub public_commitment: crate::crypto::Hash,
    pub hash_chain: Vec<u8>,
    pub version: u32,
}

impl SpendProofData {
    /// Canonical bytes: the commitment, the chain's length as eight
    /// little-endian bytes, the chain, the version as four little-endian bytes.
    pub open spec fn spec_encoding(self) -> Seq<u8> {
        self.public_commitment@ + u64_le(self.hash_chain@.len()) + self.hash_chain@ + le_bytes(
            self.version as nat,
            4,
        )
    }

    /// The canonical bytes of the proof data.
    pub fn encode(&self) -> (out: Vec<u8>)
        ensures
            out@ == self.spec_encoding(),
    {
        let mut out: Vec<u8> = Vec::new();
        extend_bytes(&mut out, self.public_commitment.as_slice());
        push_u64_le(&mut out, self.hash_chain.len() as u64);
        extend_bytes(&mut out, self.hash_chain.as_slice());
        let v = self.version;
        out.push((v % 256) as u8);
        out.push(((v / 256) % 256) as u8);
        out.push(((v / 0x1_0000) % 256) as u8);
        out.push((v / 0x100_0000) as u8);
        proof {
            let n = v as nat;
            reveal_with_fuel(le_bytes, 5);
            assert(n / 256 / 256 == n / 0x1_0000) by (nonlinear_arith);
            assert(n / 256 / 256 / 256 == n / 0x100_0000) by (nonlinear_arith);
            assert(n / 0x100_0000 < 256) by (nonlinear_arith)
                requires
                    n < 0x1_0000_0000,
            ;
            assert(n / 0x100_0000 / 256 == 0) by (nonlinear_arith)
                requires
                    n < 0x1_0000_0000,
            ;
        }
        assert(out@ =~= self.spec_encoding());
        out
    }
}

/// Bytes of the spend proof for `secret` and `commitment`: the canonical
/// bytes of the proof data with the secret's chain, version 0.
pub open spec fn spend_proof_bytes(secret: Seq<u8>, commitment: Seq<u8>) -> Seq<u8> {
    let chain = chain_prefix(secret, CHAIN_LINKS as nat);
    commitment + u64_le(chain.len()) + chain + le_bytes(0, 4)
}

/// Placeholder STARK prover for spends.
pub struct QrapStarkProver;

impl QrapStarkProver {
    /// The hash chain of a spend proof: eight links, each the Poseidon hash
    /// of the one before (the first of the secret), concatenated.
    pub fn spend_hash_chain(secret: &[u8]) -> (chain: Vec<u8>)
        ensures
            chain@ == chain_prefix(secret@, CHAIN_LINKS as nat),
            chain@.len() == 32 * CHAIN_LINKS,
    {
        let mut chain: Vec<u8> = Vec::new();
        let mut current: Vec<u8> = Vec::new();
        extend_bytes(&mut current, secret);
        let mut k: usize = 0;
        while k < CHAIN_LINKS
            invariant
                0 <= k <= CHAIN_LINKS,
                current@ == chain_link(secret@, k as nat),
                chain@ == chain_prefix(secret@, k as nat),
                chain@.len() == 32 * k,
            decreases CHAIN_LINKS - k,
        {
            let h = poseidon256(current.as_slice());
            current = Vec::new();
            extend_bytes(&mut current, h.as_slice());
            extend_bytes(&mut chain, h.as_slice());
            k = k + 1;
            assert(current@ =~= chain_link(secret@, k as nat));
        }
        chain
    }

    /// A spend proof: the canonical bytes of the proof data binding the
    /// public commitment to the secret's hash chain (version 0).
    pub fn prove_spend(secret: &[u8], public_commitment: &crate::crypto::Hash) -> (r: Result<
        StarkProofBytes,
        StarkError,
    >)
        ensures
            r matches Ok(bytes) && bytes@ == spend_proof_bytes(secret@, public_commitment@),
    {
        let data = SpendProofData {
            public_commitment: *public_commitment,
            hash_chain: Self::spend_hash_chain(secret),
            version: 0,
        };
        Ok(data.encode())
    }

    /// Whether decoded proof data answers `public_commitment`: the same
    /// commitment and a hash chain of at least 256 bytes.
    pub fn check_spend(data: &SpendProofData, public_commitment: &crate::crypto::Hash) -> (ok: bool)
        ensures
            ok == (data.public_commitment@ == public_commitment@ && data.hash_chain@.len() >= 256),
    {
        crate::crypto::hash_eq(&data.public_commitment, public_commitment)
            && data.hash_chain.len() >= 256
    }

    /// Size of a proof in bytes.
    pub fn proof_size(proof_bytes: &[u8]) -> (n: usize)
        ensures
            n == proof_bytes@.len(),
    {
        proof_bytes.len()
    }

    /// The prover is a placeholder.
    pub fn is_placeholder() -> (b: bool)
        ensures
            b,
    {
        true
    }
}

/// Bytes of a PLONK proof.
pub type PlonkProofBytes = Vec<u8>;

/// PLONK prover on the CPU.
pub struct PlonkProver {}

impl PlonkProver {
    /// CPU prover.
    pub fn new() -> Self {
        PlonkProver {  }
    }

    /// Loading an FPGA image: the CPU prover has none to load, and succeeds.
    pub fn init_f1(&mut self, xclbin_path: &str) -> (r: Result<(), &'static str>)
        ensures
            r is Ok,
    {
        Ok(())
    }

    /// CPU proof: the circuit bytes followed by the witness bytes.
    pub fn prove(&self, circuit: &[u8], witness: &[u8]) -> (proof: PlonkProofBytes)
        ensures
            proof@ == circuit@ + witness@,
    {
        let mut result: Vec<u8> = Vec::with_capacity(256);
        extend_bytes(&mut result, circuit);
        extend_bytes(&mut result, witness);
        result
    }

    /// Placeholder verification: every proof is accepted.
    pub fn verify(&self, proof: &[u8], circuit: &[u8]) -> (ok: bool)
        ensures
            ok,
    {
        true
    }
}

impl Default for PlonkProver {
    fn default() -> Self {
        PlonkProver {  }
    }
}

} // verus!
