//! Hashing, commitments and the placeholder signature scheme.
use vstd::prelude::*;
use crate::bytes::{le_bytes, push_u64_le};

verus! {

/// Bytes in a hash.
pub const HASH_LEN: usize = 32;

/// Words in each half of an LWE commitment.
pub const LWE_N: usize = 1024;

/// A 32-byte hash.
pub type Hash = [u8; 32];

/// What SHA3-256 (FIPS 202) returns for a message.
pub uninterp spec fn sha3_256_digest(data: Seq<u8>) -> Seq<u8>;

/// Calls `sha3::Sha3_256::digest`. Trusted: the 32 returned bytes are the
/// SHA3-256 digest of exactly the bytes handed in, and depend on nothing else.
#[verifier::external_body]
fn sha3_256(data: &[u8]) -> (digest: Hash)
    ensures
        digest@ == sha3_256_digest(data@),
{
    <sha3::Sha3_256 as sha3::Digest>::digest(data).into()
}

/// Calls `rand::random::<u64>()`. Trusted for nothing: any value may come back.
#[verifier::external_body]
pub(crate) fn random_u64() -> u64 {
    rand::random::<u64>()
}

/// Calls `rand::random::<u8>()`. Trusted for nothing: any value may come back.
#[verifier::external_body]
pub(crate) fn random_u8() -> u8 {
    rand::random::<u8>()
}

/// Domain separation prefix of the placeholder Poseidon hash.
pub open spec fn poseidon_tag() -> Seq<u8> {
    seq![
        0x50u8, 0x4f, 0x53, 0x45, 0x49, 0x44, 0x4f, 0x4e, 0x5f, 0x50, 0x4c, 0x41, 0x43,
        0x45, 0x48, 0x4f, 0x4c, 0x44, 0x45, 0x52, 0x5f, 0x76, 0x30, 0x2e, 0x32,
    ]
}

/// The placeholder Poseidon hash: SHA3-256 of the domain tag followed by the data.
pub open spec fn poseidon(data: Seq<u8>) -> Seq<u8> {
    sha3_256_digest(poseidon_tag() + data)
}

fn poseidon_tag_bytes() -> (tag: Vec<u8>)
    ensures
        tag@ == poseidon_tag(),
{
    let tag = vec![
        0x50u8, 0x4f, 0x53, 0x45, 0x49, 0x44, 0x4f, 0x4e, 0x5f, 0x50, 0x4c, 0x41, 0x43,
        0x45, 0x48, 0x4f, 0x4c, 0x44, 0x45, 0x52, 0x5f, 0x76, 0x30, 0x2e, 0x32,
    ];
    assert(tag@ =~= poseidon_tag());
    tag
}

/// Appends every byte of `src` to `dst`.
pub fn extend_bytes(dst: &mut Vec<u8>, src: &[u8])
    ensures
        final(dst)@ == old(dst)@ + src@,
{
    let ghost start = dst@;
    let mut i: usize = 0;
    while i < src.len()
        invariant
            0 <= i <= src@.len(),
            dst@ == start + src@.subrange(0, i as int),
        decreases src@.len() - i,
    {
        dst.push(src[i]);
        i = i + 1;
        assert(dst@ =~= start + src@.subrange(0, i as int));
    }
    assert(src@.subrange(0, src@.len() as int) =~= src@);
}

/// Placeholder Poseidon-256 hash of `data`.
pub fn poseidon256(data: &[u8]) -> (h: Hash)
    ensures
        h@ == poseidon(data@),
{
    let mut buf = poseidon_tag_bytes();
    extend_bytes(&mut buf, data);
    sha3_256(buf.as_slice())
}

/// Hash of two hashes: Poseidon of their concatenation.
pub fn poseidon256_pair(left: &Hash, right: &Hash) -> (h: Hash)
    ensures
        h@ == poseidon(left@ + right@),
{
    let mut buf: Vec<u8> = Vec::with_capacity(64);
    extend_bytes(&mut buf, left.as_slice());
    extend_bytes(&mut buf, right.as_slice());
    assert(buf@ =~= left@ + right@);
    poseidon256(buf.as_slice())
}

/// Two hashes with the same bytes are the same hash.
pub proof fn lemma_hash_view_injective(a: Hash, b: Hash)
    ensures
        (a@ == b@) == (a == b),
{
    if a@ == b@ {
        assert forall|i: int| 0 <= i < 32 implies a[i] == b[i] by {
            assert(a@[i] == b@[i]);
        }
        assert(a =~= b);
    }
}

/// Whether two hashes hold the same bytes.
pub fn hash_eq(a: &Hash, b: &Hash) -> (eq: bool)
    ensures
        eq == (a@ == b@),
        eq == (*a == *b),
{
    proof {
        lemma_hash_view_injective(*a, *b);
    }
    let mut i: usize = 0;
    while i < 32
        invariant
            0 <= i <= 32,
            a@.len() == 32,
            b@.len() == 32,
            forall|j: int| 0 <= j < i ==> a@[j] == b@[j],
        decreases 32 - i,
    {
        if a[i] != b[i] {
            return false;
        }
        i = i + 1;
    }
    assert(a@ =~= b@);
    true
}

/// Whether two byte slices hold the same bytes.
pub fn bytes_eq(a: &[u8], b: &[u8]) -> (eq: bool)
    ensures
        eq == (a@ == b@),
{
    if a.len() != b.len() {
        return false;
    }
    let mut i: usize = 0;
    while i < a.len()
        invariant
            0 <= i <= a@.len(),
            a@.len() == b@.len(),
            forall|j: int| 0 <= j < i ==> a@[j] == b@[j],
        decreases a@.len() - i,
    {
        if a[i] != b[i] {
            return false;
        }
        i = i + 1;
    }
    assert(a@ =~= b@);
    true
}

/// Copy of a hash.
pub fn copy_hash(h: &Hash) -> (c: Hash)
    ensures
        c@ == h@,
{
    *h
}

/// Little-endian serialisation of a sequence of 64-bit words.
pub open spec fn words_le(s: Seq<u64>) -> Seq<u8>
    decreases s.len(),
{
    if s.len() == 0 {
        Seq::empty()
    } else {
        words_le(s.drop_last()) + le_bytes(s.last() as nat, 8)
    }
}

/// Appends the little-endian bytes of every word of `words` to `out`.
pub fn push_words_le(out: &mut Vec<u8>, words: &Vec<u64>)
    ensures
        final(out)@ == old(out)@ + words_le(words@),
{
    let ghost start = out@;
    let mut i: usize = 0;
    while i < words.len()
        invariant
            0 <= i <= words@.len(),
            out@ == start + words_le(words@.take(i as int)),
        decreases words@.len() - i,
    {
        push_u64_le(out, words[i]);
        assert(words@.take(i + 1).drop_last() =~= words@.take(i as int));
        i = i + 1;
        assert(out@ =~= start + words_le(words@.take(i as int)));
    }
    assert(words@.take(words@.len() as int) =~= words@);
}

/// Ring-LWE commitment (placeholder): two vectors of 64-bit words.
#[derive(Clone, Debug, PartialEq, Eq)]
pub struct LweCommitment {
    pub a: Vec<u64>,
    pub b: Vec<u64>,
}

impl LweCommitment {
    /// Bytes of the commitment: every word of `a`, then every word of `b`, little-endian.
    pub open spec fn spec_bytes(&self) -> Seq<u8> {
        words_le(self.a@) + words_le(self.b@)
    }

    /// Hash of the commitment.
    pub open spec fn spec_hash(&self) -> Seq<u8> {
        poseidon(self.spec_bytes())
    }

    /// A fresh commitment of `LWE_N` random words in each half.
    pub fn new_random() -> (c: Self)
        ensures
            c.a@.len() == LWE_N,
            c.b@.len() == LWE_N,
    {
        let mut a: Vec<u64> = Vec::with_capacity(LWE_N);
        let mut b: Vec<u64> = Vec::with_capacity(LWE_N);
        let mut i: usize = 0;
        while i < LWE_N
            invariant
                0 <= i <= LWE_N,
                a@.len() == i,
            decreases LWE_N - i,
        {
            a.push(random_u64());
            i = i + 1;
        }
        i = 0;
        while i < LWE_N
            invariant
                0 <= i <= LWE_N,
                a@.len() == LWE_N,
                b@.len() == i,
            decreases LWE_N - i,
        {
            b.push(random_u64());
            i = i + 1;
        }
        LweCommitment { a, b }
    }

    /// The bytes of the commitment (see `spec_bytes`).
    pub fn to_bytes(&self) -> (out: Vec<u8>)
        ensures
            out@ == self.spec_bytes(),
    {
        let mut out: Vec<u8> = Vec::with_capacity(LWE_N * 16);
        push_words_le(&mut out, &self.a);
        push_words_le(&mut out, &self.b);
        out
    }

    /// Poseidon hash of the commitment's bytes.
    pub fn hash(&self) -> (h: Hash)
        ensures
            h@ == self.spec_hash(),
    {
        let bytes = self.to_bytes();
        poseidon256(bytes.as_slice())
    }
}

/// ML-KEM-1024 key pair (placeholder: random bytes).
#[derive(Clone, Debug)]
pub struct MlKemKeypair {
    pub public_key: Vec<u8>,
    pub secret_key: Vec<u8>,
}

fn random_bytes(n: usize) -> (v: Vec<u8>)
    ensures
        v@.len() == n,
{
    let mut v: Vec<u8> = Vec::with_capacity(n);
    let mut i: usize = 0;
    while i < n
        invariant
            0 <= i <= n,
            v@.len() == i,
        decreases n - i,
    {
        v.push(random_u8());
        i = i + 1;
    }
    v
}

impl MlKemKeypair {
    /// A key pair with a 1568-byte public key and a 3168-byte secret key.
    pub fn generate() -> (kp: Self)
        ensures
            kp.public_key@.len() == 1568,
            kp.secret_key@.len() == 3168,
    {
        let public_key = random_bytes(1568);
        let secret_key = random_bytes(3168);
        MlKemKeypair { public_key, secret_key }
    }
}

/// ML-DSA signature (placeholder).
#[derive(Clone, Debug)]
pub struct MlDsaSignature {
    pub bytes: Vec<u8>,
}

/// Placeholder signature: the Poseidon hash of the message; the key is unused.
pub fn sign_placeholder(msg: &[u8], _sk: &[u8]) -> (sig: MlDsaSignature)
    ensures
        sig.bytes@ == placeholder_signature(msg@),
{
    let h = poseidon256(msg);
    let mut bytes: Vec<u8> = Vec::with_capacity(32);
    extend_bytes(&mut bytes, h.as_slice());
    MlDsaSignature { bytes }
}

/// Placeholder verification: the signature bytes equal the Poseidon hash of the message.
pub fn verify_placeholder(msg: &[u8], sig: &MlDsaSignature, _pk: &[u8]) -> (ok: bool)
    ensures
        ok == placeholder_accepts(msg@, sig.bytes@),
{
    let h = poseidon256(msg);
    bytes_eq(sig.bytes.as_slice(), h.as_slice())
}

/// Bytes of the placeholder signature of `msg`.
pub open spec fn placeholder_signature(msg: Seq<u8>) -> Seq<u8> {
    poseidon(msg)
}

/// Whether signature bytes `sig` are accepted for `msg`.
pub open spec fn placeholder_accepts(msg: Seq<u8>, sig: Seq<u8>) -> bool {
    sig == poseidon(msg)
}

/// Law: the placeholder signature of a message is accepted for that message,
/// whatever keys the signer and the verifier hold.
pub proof fn lemma_sign_then_verify(msg: Seq<u8>)
    ensures
        placeholder_accepts(msg, placeholder_signature(msg)),
{
}

} // verus!
