//! Data availability: namespaces and blobs with their commitments, the
//! bookkeeping of the in-memory DA client, and the Blobstream header-chain
//! and blob-inclusion checks.
use vstd::prelude::*;
use crate::bytes::{le_bytes, push_u64_le};
use crate::crypto::{poseidon, poseidon256, extend_bytes, hash_eq, copy_hash};
use crate::entries::{has_key, keys_distinct, entry_map, lemma_entry_at, lemma_entry_map_update, lemma_entry_map_push, find_key, lemma_entry_map_finite};
use crate::utxo::u64_le;

pub mod celestia;

verus! {

/// Lowercase hexadecimal digit of a value below 16.
pub open spec fn hex_digit(v: u8) -> char {
    if v < 10 {
        ((v + 48) as u8) as char
    } else {
        ((v + 87) as u8) as char
    }
}

/// Two lowercase hexadecimal digits per byte, high nibble first.
pub open spec fn hex_chars(bytes: Seq<u8>) -> Seq<char>
    decreases bytes.len(),
{
    if bytes.len() == 0 {
        Seq::empty()
    } else {
        hex_chars(bytes.drop_last()) + seq![hex_digit(bytes.last() / 16), hex_digit(bytes.last() % 16)]
    }
}

/// `hex::encode`: the lowercase hexadecimal form of `bytes`, two digits
/// per byte, high nibble first.
#[verifier::external_body]
pub(crate) fn hex_encode(bytes: &[u8]) -> (s: String)
    ensures
        s@ == hex_chars(bytes@),
{
    hex::encode(bytes)
}

/// Celestia namespace (29 bytes).
#[derive(Clone, Copy, Debug, PartialEq, Eq, Hash)]
pub struct Namespace(pub [u8; 29]);

/// The namespace for `id`: its first 29 bytes, zero-padded.
pub open spec fn namespace_bytes(id: Seq<u8>) -> Seq<u8> {
    Seq::new(29, |i: int| if i < id.len() { id[i] } else { 0u8 })
}

impl Namespace {
    /// Namespace of `id`: its first 29 bytes, zero-padded.
    pub fn new(id: &[u8]) -> (ns: Self)
        ensures
            ns.0@ == namespace_bytes(id@),
    {
        let mut ns = [0u8; 29];
        let len = if id.len() < 29 {
            id.len()
        } else {
            29
        };
        let mut i: usize = 0;
        while i < len
            invariant
                0 <= i <= len,
                len <= 29,
                len <= id@.len(),
                len == id@.len() || len == 29,
                forall|j: int| 0 <= j < i ==> ns@[j] == id@[j],
                forall|j: int| i <= j < 29 ==> ns@[j] == 0u8,
            decreases len - i,
        {
            ns[i] = id[i];
            i = i + 1;
        }
        assert(ns@ =~= namespace_bytes(id@));
        Namespace(ns)
    }

    /// The namespace bytes in lowercase hexadecimal.
    pub fn as_hex(&self) -> (s: String)
        ensures
            s@ == hex_chars(self.0@),
    {
        hex_encode(self.0.as_slice())
    }
}

/// Whether two namespaces hold the same bytes.
pub fn same_namespace(a: &Namespace, b: &Namespace) -> (eq: bool)
    ensures
        eq == (a.0@ == b.0@),
{
    let mut i: usize = 0;
    while i < 29
        invariant
            0 <= i <= 29,
            a.0@.len() == 29,
            b.0@.len() == 29,
            forall|j: int| 0 <= j < i ==> a.0@[j] == b.0@[j],
        decreases 29 - i,
    {
        if a.0[i] != b.0[i] {
            return false;
        }
        i = i + 1;
    }
    assert(a.0@ =~= b.0@);
    true
}

/// DA blob (transaction batch or state diff).
#[derive(Clone, Debug)]
pub struct Blob {
    pub namespace: Namespace,
    pub data: Vec<u8>,
    pub share_version: u8,
}

/// Abstract blob: namespace bytes, data, share version.
pub struct BlobView {
    pub namespace: Seq<u8>,
    pub data: Seq<u8>,
    pub share_version: u8,
}

impl View for Blob {
    type V = BlobView;

    open spec fn view(&self) -> BlobView {
        BlobView { namespace: self.namespace.0@, data: self.data@, share_version: self.share_version }
    }
}

impl Blob {
    /// Commitment: Poseidon hash of the namespace bytes followed by the data.
    pub open spec fn spec_commitment(&self) -> Seq<u8> {
        poseidon(self.namespace.0@ + self.data@)
    }

    /// Blob of share version 0.
    pub fn new(namespace: Namespace, data: Vec<u8>) -> (b: Self)
        ensures
            b.namespace == namespace,
            b.data@ == data@,
            b.share_version == 0,
    {
        Blob { namespace, data, share_version: 0 }
    }

    /// Commitment of the blob (see `spec_commitment`).
    pub fn commitment(&self) -> (h: crate::crypto::Hash)
        ensures
            h@ == self.spec_commitment(),
    {
        let mut input: Vec<u8> = Vec::new();
        extend_bytes(&mut input, self.namespace.0.as_slice());
        extend_bytes(&mut input, self.data.as_slice());
        poseidon256(input.as_slice())
    }

    /// Size on the DA layer: data, namespace and version byte.
    pub fn size_bytes(&self) -> (n: usize)
        requires
            self.data@.len() + 30 <= usize::MAX,
        ensures
            n == self.data@.len() + 30,
    {
        self.data.len() + 29 + 1
    }

    /// A copy of the blob.
    pub fn duplicate(&self) -> (b: Self)
        ensures
            b@ == self@,
    {
        let mut data: Vec<u8> = Vec::new();
        extend_bytes(&mut data, self.data.as_slice());
        assert(data@ =~= self.data@);
        Blob { namespace: self.namespace, data, share_version: self.share_version }
    }
}

/// Blob inclusion proof (simplified).
#[derive(Clone, Debug)]
pub struct InclusionProof {
    pub blob_commitment: crate::crypto::Hash,
    pub row_roots: Vec<crate::crypto::Hash>,
    pub column_roots: Vec<crate::crypto::Hash>,
    pub row_index: u16,
    pub column_index: u16,
    pub namespace: Namespace,
}

/// Errors of the DA layer that the library raises.
#[derive(Debug)]
pub enum DaError {
    SubmissionFailed(String),
    BlobNotFound(String),
    InvalidProof,
    NetworkError(String),
    NamespaceMismatch,
}

/// Commitment of an abstract blob.
pub open spec fn blob_commitment(b: BlobView) -> Seq<u8> {
    poseidon(b.namespace + b.data)
}

/// Abstract in-memory DA client: its namespace, the blobs by commitment,
/// the chain height, the simulated latency.
pub struct MockDaView {
    pub namespace: Seq<u8>,
    pub blobs: Map<Seq<u8>, BlobView>,
    pub height: u64,
    pub latency_ms: u64,
}

/// Submitting `b` (of the client's namespace): stored under its
/// commitment, one block later.
pub open spec fn da_submit(v: MockDaView, b: BlobView) -> MockDaView {
    MockDaView {
        blobs: v.blobs.insert(blob_commitment(b), b),
        height: (v.height + 1) as u64,
        ..v
    }
}

/// The blob stored under `c`, if it is of namespace `ns`.
pub open spec fn da_get(v: MockDaView, c: Seq<u8>, ns: Seq<u8>) -> Option<BlobView> {
    if v.blobs.contains_key(c) && v.blobs[c].namespace == ns {
        Some(v.blobs[c])
    } else {
        None
    }
}

/// In-memory DA client for local testing.
pub struct MockDaClient {
    namespace: Namespace,
    blobs: Vec<(crate::crypto::Hash, Blob)>,
    current_height: u64,
    latency_ms: u64,
}

impl View for MockDaClient {
    type V = MockDaView;

    closed spec fn view(&self) -> MockDaView {
        MockDaView {
            namespace: self.namespace.0@,
            blobs: entry_map(self.blobs@).map_values(|b: Blob| b@),
            height: self.current_height,
            latency_ms: self.latency_ms,
        }
    }
}

impl MockDaClient {
    /// Each commitment stored once.
    pub closed spec fn well_formed(&self) -> bool {
        keys_distinct(self.blobs@)
    }

    /// The client holds finitely many blobs.
    pub proof fn lemma_view_blobs_finite(&self)
        ensures
            self@.blobs.dom().finite(),
    {
        lemma_entry_map_finite(self.blobs@);
        assert(self@.blobs.dom() =~= entry_map(self.blobs@).dom());
    }

    /// Client of `namespace` at height 1 with no blobs and 100 ms latency.
    pub fn new(namespace: Namespace) -> (c: Self)
        ensures
            c.well_formed(),
            c@ == (MockDaView {
                namespace: namespace.0@,
                blobs: Map::empty(),
                height: 1,
                latency_ms: 100,
            }),
    {
        let c = MockDaClient { namespace, blobs: Vec::new(), current_height: 1, latency_ms: 100 };
        assert(entry_map(c.blobs@) =~= Map::<Seq<u8>, Blob>::empty());
        assert(c@.blobs =~= Map::<Seq<u8>, BlobView>::empty());
        c
    }

    /// The same client with a simulated latency of `ms` milliseconds.
    pub fn with_latency(self, ms: u64) -> (c: Self)
        ensures
            c.well_formed() == self.well_formed(),
            c@ == (MockDaView { latency_ms: ms, ..self@ }),
    {
        let mut c = self;
        c.latency_ms = ms;
        c
    }

    /// Namespace of the client.
    pub fn namespace(&self) -> (ns: &Namespace)
        ensures
            ns.0@ == self@.namespace,
    {
        &self.namespace
    }

    /// Simulated latency of each call, in milliseconds.
    pub fn latency_ms(&self) -> (ms: u64)
        ensures
            ms == self@.latency_ms,
    {
        self.latency_ms
    }

    /// Stores `blob` under its commitment and moves one block on; a blob of
    /// another namespace is refused.
    pub fn submit_blob(&mut self, blob: Blob) -> (r: Result<crate::crypto::Hash, DaError>)
        requires
            old(self).well_formed(),
            blob.namespace.0@ == old(self)@.namespace ==> old(self)@.height < u64::MAX,
        ensures
            final(self).well_formed(),
            blob.namespace.0@ != old(self)@.namespace ==> r == Err::<crate::crypto::Hash, DaError>(
                DaError::NamespaceMismatch,
            ) && final(self)@ == old(self)@,
            blob.namespace.0@ == old(self)@.namespace ==> (r matches Ok(c) && c@ == blob_commitment(
                blob@,
            ) && final(self)@ == da_submit(old(self)@, blob@)),
    {
        if !same_namespace(&blob.namespace, &self.namespace) {
            return Err(DaError::NamespaceMismatch);
        }
        let c = blob.commitment();
        let ghost bv = blob;
        let ghost s0 = self.blobs@;
        match find_key(&self.blobs, &c) {
            Some(i) => {
                let k = self.blobs[i].0;
                self.blobs.set(i, (k, blob));
                proof {
                    lemma_entry_map_update(s0, i as int, bv);
                }
            },
            None => {
                self.blobs.push((c, blob));
                proof {
                    lemma_entry_map_push(s0, (c, bv));
                }
            },
        }
        self.current_height = self.current_height + 1;
        proof {
            assert(self@.blobs =~= old(self)@.blobs.insert(c@, bv@));
        }
        Ok(c)
    }

    /// The blob stored under `commitment`, if it is of `namespace`; else
    /// `BlobNotFound` with the commitment in hexadecimal.
    pub fn get_blob(&self, commitment: &crate::crypto::Hash, namespace: &Namespace) -> (r: Result<
        Blob,
        DaError,
    >)
        requires
            self.well_formed(),
        ensures
            match r {
                Ok(b) => da_get(self@, commitment@, namespace.0@) == Some(b@),
                Err(e) => da_get(self@, commitment@, namespace.0@) is None && (e matches DaError::BlobNotFound(
                    s,
                ) && s@ == hex_chars(commitment@)),
            },
    {
        match find_key(&self.blobs, commitment) {
            Some(i) => {
                proof {
                    lemma_entry_at(self.blobs@, i as int);
                }
                if same_namespace(&self.blobs[i].1.namespace, namespace) {
                    return Ok(self.blobs[i].1.duplicate());
                }
            },
            None => {},
        }
        Err(DaError::BlobNotFound(hex_encode(commitment.as_slice())))
    }

    /// Whether the proven blob is stored here; a proof for another
    /// namespace is refused.
    pub fn verify_inclusion(&self, proof: &InclusionProof) -> (r: Result<bool, DaError>)
        ensures
            r == if proof.namespace.0@ != self@.namespace {
                Err(DaError::NamespaceMismatch)
            } else {
                Ok(self@.blobs.contains_key(proof.blob_commitment@))
            },
    {
        if !same_namespace(&proof.namespace, &self.namespace) {
            return Err(DaError::NamespaceMismatch);
        }
        match find_key(&self.blobs, &proof.blob_commitment) {
            Some(i) => {
                proof {
                    assert(has_key(self.blobs@, proof.blob_commitment@));
                }
                Ok(true)
            },
            None => Ok(false),
        }
    }

    /// Current height.
    pub fn latest_height(&self) -> (h: u64)
        ensures
            h == self@.height,
    {
        self.current_height
    }
}

/// Law: what is submitted can be read back. After a submission of a blob of
/// the client's namespace, reading its commitment in that namespace gives
/// the blob, every other commitment reads as before, and the height went up
/// by one.
pub proof fn lemma_submit_then_get(v: MockDaView, b: BlobView, c: Seq<u8>, ns: Seq<u8>)
    requires
        b.namespace == v.namespace,
        v.height < u64::MAX,
    ensures
        da_get(da_submit(v, b), blob_commitment(b), b.namespace) == Some(b),
        c != blob_commitment(b) ==> da_get(da_submit(v, b), c, ns) == da_get(v, c, ns),
        da_submit(v, b).height == v.height + 1,
{
}

/// Blobstream header (simplified Celestia header).
#[derive(Clone, Debug)]
pub struct BlobstreamHeader {
    pub height: u64,
    pub data_root: crate::crypto::Hash,
    pub prev_hash: crate::crypto::Hash,
    pub timestamp: u64,
}

impl BlobstreamHeader {
    /// Canonical bytes: height, data root, previous hash, timestamp; numbers
    /// as eight little-endian bytes.
    pub open spec fn spec_encoding(self) -> Seq<u8> {
        u64_le(self.height as nat) + self.data_root@ + self.prev_hash@ + u64_le(self.timestamp as nat)
    }

    /// The canonical bytes of the header.
    pub fn encode(&self) -> (out: Vec<u8>)
        ensures
            out@ == self.spec_encoding(),
    {
        let mut out: Vec<u8> = Vec::new();
        push_u64_le(&mut out, self.height);
        extend_bytes(&mut out, self.data_root.as_slice());
        extend_bytes(&mut out, self.prev_hash.as_slice());
        push_u64_le(&mut out, self.timestamp);
        assert(out@ =~= self.spec_encoding());
        out
    }
}

/// Each header's data root is the hash of its canonical bytes and its
/// previous hash is the data root before it (`prev` for the first).
pub open spec fn chain_links(headers: Seq<BlobstreamHeader>, prev: Seq<u8>) -> bool
    decreases headers.len(),
{
    headers.len() == 0 || {
        &&& poseidon(headers[0].spec_encoding()) == headers[0].data_root@
        &&& headers[0].prev_hash@ == prev
        &&& chain_links(headers.drop_first(), headers[0].data_root@)
    }
}

/// Header `i` of `headers` is sound in a chain hanging from `prev`: its data
/// root is the hash of its own canonical bytes and its previous hash is the
/// data root before it (`prev` for the first).
pub open spec fn header_sound(headers: Seq<BlobstreamHeader>, prev: Seq<u8>, i: int) -> bool {
    &&& poseidon(headers[i].spec_encoding()) == headers[i].data_root@
    &&& headers[i].prev_hash@ == if i == 0 {
        prev
    } else {
        headers[i - 1].data_root@
    }
}

/// Law: a header chain is accepted exactly when every header is sound: its
/// data root equals the Poseidon hash of that header's own canonical bytes,
/// and its previous hash equals the data root before it, the trusted root
/// for the first.
pub proof fn lemma_chain_links_every_header(headers: Seq<BlobstreamHeader>, prev: Seq<u8>)
    ensures
        chain_links(headers, prev) <==> forall|i: int|
            0 <= i < headers.len() ==> #[trigger] header_sound(headers, prev, i),
    decreases headers.len(),
{
    if headers.len() > 0 {
        let rest = headers.drop_first();
        let p1 = headers[0].data_root@;
        lemma_chain_links_every_header(rest, p1);
        if chain_links(headers, prev) {
            assert forall|i: int| 0 <= i < headers.len() implies #[trigger] header_sound(headers, prev, i) by {
                if i > 0 {
                    assert(header_sound(rest, p1, i - 1));
                    assert(rest[i - 1] == headers[i]);
                    if i > 1 {
                        assert(rest[i - 2] == headers[i - 1]);
                    }
                }
            }
        }
        if forall|i: int| 0 <= i < headers.len() ==> #[trigger] header_sound(headers, prev, i) {
            assert(header_sound(headers, prev, 0));
            assert forall|i: int| 0 <= i < rest.len() implies #[trigger] header_sound(rest, p1, i) by {
                assert(header_sound(headers, prev, i + 1));
                assert(rest[i] == headers[i + 1]);
                if i > 0 {
                    assert(rest[i - 1] == headers[i]);
                }
            }
        }
    }
}

/// Blobstream verifier: validates DA inclusion against a trusted header.
pub struct BlobstreamVerifier {
    trusted_height: u64,
    trusted_root: crate::crypto::Hash,
}

impl BlobstreamVerifier {
    /// Height of the trusted header.
    pub closed spec fn spec_trusted_height(&self) -> u64 {
        self.trusted_height
    }

    /// Data root of the trusted header.
    pub closed spec fn spec_trusted_root(&self) -> Seq<u8> {
        self.trusted_root@
    }

    /// Verifier trusting the header at `trusted_height` with data root `trusted_root`.
    pub fn new(trusted_height: u64, trusted_root: crate::crypto::Hash) -> (v: Self)
        ensures
            v.spec_trusted_height() == trusted_height,
            v.spec_trusted_root() == trusted_root@,
    {
        BlobstreamVerifier { trusted_height, trusted_root }
    }

    /// Checks a header chain: empty is valid; the first header must follow
    /// the trusted height (else `InvalidProof`); the chain is valid when its
    /// links hold from the trusted root.
    pub fn verify_header_chain(&self, headers: &[BlobstreamHeader]) -> (r: Result<bool, DaError>)
        requires
            headers@.len() > 0 ==> self.spec_trusted_height() < u64::MAX,
        ensures
            r == if headers@.len() == 0 {
                Ok(true)
            } else if headers@[0].height != self.spec_trusted_height() + 1 {
                Err(DaError::InvalidProof)
            } else {
                Ok(chain_links(headers@, self.spec_trusted_root()))
            },
    {
        if headers.len() == 0 {
            return Ok(true);
        }
        if headers[0].height != self.trusted_height + 1 {
            return Err(DaError::InvalidProof);
        }
        let n = headers.len();
        let mut prev_hash = copy_hash(&self.trusted_root);
        let mut i: usize = 0;
        assert(headers@.subrange(0, n as int) =~= headers@);
        while i < n
            invariant
                0 <= i <= n,
                n == headers@.len(),
                n > 0,
                headers@[0].height == self.trusted_height + 1,
                chain_links(headers@, self.trusted_root@) == chain_links(
                    headers@.subrange(i as int, n as int),
                    prev_hash@,
                ),
            decreases n - i,
        {
            let ghost rest = headers@.subrange(i as int, n as int);
            assert(rest[0] == headers@[i as int]);
            assert(rest.drop_first() =~= headers@.subrange(i + 1, n as int));
            let bytes = headers[i].encode();
            let computed = poseidon256(bytes.as_slice());
            if !hash_eq(&computed, &headers[i].data_root) {
                assert(!chain_links(rest, prev_hash@));
                return Ok(false);
            }
            if !hash_eq(&headers[i].prev_hash, &prev_hash) {
                assert(!chain_links(rest, prev_hash@));
                return Ok(false);
            }
            prev_hash = copy_hash(&headers[i].data_root);
            i = i + 1;
        }
        assert(headers@.subrange(n as int, n as int).len() == 0);
        Ok(true)
    }

    /// Checks a blob against its inclusion proof: the proof must commit to
    /// the blob (else `InvalidProof`) and name its namespace (else
    /// `NamespaceMismatch`).
    pub fn verify_blob_in_header(
        &self,
        blob: &Blob,
        header: &BlobstreamHeader,
        proof: &InclusionProof,
    ) -> (r: Result<bool, DaError>)
        ensures
            r == if proof.blob_commitment@ != blob.spec_commitment() {
                Err(DaError::InvalidProof)
            } else if proof.namespace.0@ != blob.namespace.0@ {
                Err(DaError::NamespaceMismatch)
            } else {
                Ok(true)
            },
    {
        let c = blob.commitment();
        if !hash_eq(&proof.blob_commitment, &c) {
            return Err(DaError::InvalidProof);
        }
        if !same_namespace(&proof.namespace, &blob.namespace) {
            return Err(DaError::NamespaceMismatch);
        }
        Ok(true)
    }
}

} // verus!
