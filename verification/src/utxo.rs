//! UTXO engine with epoch nullifier trees: every epoch keeps the set of
//! spent nullifiers (with its Merkle root) and the commitments of the
//! outputs created in it; epochs more than three behind are pruned.
use vstd::prelude::*;
use std::collections::HashMap;
use vstd::std_specs::iter::IteratorSpec;
use crate::bytes::{le_bytes, push_u64_le, concat_map, lemma_concat_map_step};
use crate::crypto::{LweCommitment, poseidon, poseidon256, extend_bytes, words_le, push_words_le, hash_eq};
use crate::smt::{SparseMerkleTree, set_root};

verus! {

broadcast use vstd::std_specs::hash::group_hash_axioms;

/// Blocks per epoch.
pub const EPOCH_LENGTH: u64 = 100;

/// Transaction output as stored (UTXO).
#[derive(Clone, Debug, PartialEq, Eq)]
pub struct Utxo {
    pub commitment: LweCommitment,
    pub value: u64,
    pub epoch: u64,
}

/// Transaction input: spends the output whose nullifier it reveals.
#[derive(Clone, Debug, PartialEq, Eq)]
pub struct TxInput {
    pub nullifier: crate::crypto::Hash,
    pub spend_proof: Vec<u8>,
}

/// Transaction output.
#[derive(Clone, Debug, PartialEq, Eq)]
pub struct TxOutput {
    pub commitment: LweCommitment,
    pub value: u64,
}

/// Transaction.
#[derive(Clone, Debug, PartialEq, Eq)]
pub struct Transaction {
    pub inputs: Vec<TxInput>,
    pub outputs: Vec<TxOutput>,
    pub fee: u64,
    pub nonce: u64,
}

/// Eight little-endian bytes of a 64-bit number.
pub open spec fn u64_le(x: nat) -> Seq<u8> {
    le_bytes(x, 8)
}

impl TxInput {
    /// Canonical bytes: the nullifier, the proof's length as eight
    /// little-endian bytes, the proof.
    pub open spec fn spec_encoding(self) -> Seq<u8> {
        self.nullifier@ + u64_le(self.spend_proof@.len()) + self.spend_proof@
    }

    /// Appends the canonical bytes of the input to `out`.
    pub fn encode_into(&self, out: &mut Vec<u8>)
        ensures
            final(out)@ == old(out)@ + self.spec_encoding(),
    {
        extend_bytes(out, self.nullifier.as_slice());
        push_u64_le(out, self.spend_proof.len() as u64);
        extend_bytes(out, self.spend_proof.as_slice());
    }
}

impl TxOutput {
    /// Canonical bytes: each commitment half as a length-prefixed word
    /// list, then the value; all numbers eight little-endian bytes.
    pub open spec fn spec_encoding(self) -> Seq<u8> {
        u64_le(self.commitment.a@.len()) + words_le(self.commitment.a@) + u64_le(
            self.commitment.b@.len(),
        ) + words_le(self.commitment.b@) + u64_le(self.value as nat)
    }

    /// Appends the canonical bytes of the output to `out`.
    pub fn encode_into(&self, out: &mut Vec<u8>)
        ensures
            final(out)@ == old(out)@ + self.spec_encoding(),
    {
        push_u64_le(out, self.commitment.a.len() as u64);
        push_words_le(out, &self.commitment.a);
        push_u64_le(out, self.commitment.b.len() as u64);
        push_words_le(out, &self.commitment.b);
        push_u64_le(out, self.value);
    }
}

/// Canonical bytes of a list of inputs: the count, then each input.
pub open spec fn inputs_encoding(s: Seq<TxInput>) -> Seq<u8> {
    u64_le(s.len()) + concat_map(s, |i: TxInput| i.spec_encoding())
}

/// Canonical bytes of a list of outputs: the count, then each output.
pub open spec fn outputs_encoding(s: Seq<TxOutput>) -> Seq<u8> {
    u64_le(s.len()) + concat_map(s, |o: TxOutput| o.spec_encoding())
}

impl Transaction {
    /// Canonical bytes: inputs, outputs, fee, nonce (the field order of the
    /// structure; counts and numbers as eight little-endian bytes).
    pub open spec fn spec_encoding(self) -> Seq<u8> {
        inputs_encoding(self.inputs@) + outputs_encoding(self.outputs@) + u64_le(self.fee as nat)
            + u64_le(self.nonce as nat)
    }

    /// Appends the canonical bytes of the transaction to `out`.
    pub fn encode_into(&self, out: &mut Vec<u8>)
        ensures
            final(out)@ == old(out)@ + self.spec_encoding(),
    {
        let ghost start = out@;
        let ghost fi = |i: TxInput| i.spec_encoding();
        let ghost fo = |o: TxOutput| o.spec_encoding();
        push_u64_le(out, self.inputs.len() as u64);
        let ghost mid = out@;
        let mut i: usize = 0;
        while i < self.inputs.len()
            invariant
                0 <= i <= self.inputs@.len(),
                fi == (|x: TxInput| x.spec_encoding()),
                out@ == mid + concat_map(self.inputs@.take(i as int), fi),
            decreases self.inputs@.len() - i,
        {
            self.inputs[i].encode_into(out);
            proof {
                lemma_concat_map_step(self.inputs@, fi, i as int);
                assert(fi(self.inputs@[i as int]) == self.inputs@[i as int].spec_encoding());
                assert(out@ =~= mid + concat_map(self.inputs@.take(i + 1), fi));
            }
            i = i + 1;
        }
        assert(self.inputs@.take(self.inputs@.len() as int) =~= self.inputs@);
        assert(out@ == start + inputs_encoding(self.inputs@));
        push_u64_le(out, self.outputs.len() as u64);
        let ghost mid2 = out@;
        let mut j: usize = 0;
        while j < self.outputs.len()
            invariant
                0 <= j <= self.outputs@.len(),
                fo == (|x: TxOutput| x.spec_encoding()),
                out@ == mid2 + concat_map(self.outputs@.take(j as int), fo),
            decreases self.outputs@.len() - j,
        {
            self.outputs[j].encode_into(out);
            proof {
                lemma_concat_map_step(self.outputs@, fo, j as int);
                assert(fo(self.outputs@[j as int]) == self.outputs@[j as int].spec_encoding());
                assert(out@ =~= mid2 + concat_map(self.outputs@.take(j + 1), fo));
            }
            j = j + 1;
        }
        assert(self.outputs@.take(self.outputs@.len() as int) =~= self.outputs@);
        assert(out@ == start + inputs_encoding(self.inputs@) + outputs_encoding(self.outputs@));
        push_u64_le(out, self.fee);
        push_u64_le(out, self.nonce);
        assert(out@ =~= start + self.spec_encoding());
    }

    /// The canonical bytes of the transaction.
    pub fn encode(&self) -> (out: Vec<u8>)
        ensures
            out@ == self.spec_encoding(),
    {
        let mut out: Vec<u8> = Vec::new();
        self.encode_into(&mut out);
        assert(out@ =~= self.spec_encoding());
        out
    }

    /// Transaction id: Poseidon hash of the canonical bytes.
    pub fn hash(&self) -> (h: crate::crypto::Hash)
        ensures
            h@ == poseidon(self.spec_encoding()),
    {
        let bytes = self.encode();
        poseidon256(bytes.as_slice())
    }
}

/// Errors of the UTXO engine.
#[derive(Debug)]
pub enum UtxoError {
    DoubleSpend,
    InvalidCommitment,
    EpochMismatch,
    Storage(String),
}

/// The byte views of a list of hashes.
pub open spec fn hash_views(v: Seq<crate::crypto::Hash>) -> Seq<Seq<u8>> {
    Seq::new(v.len(), |i: int| v[i]@)
}

/// The value stored in the nullifier tree under a spent nullifier: 32 bytes 0xff.
pub open spec fn spent_marker() -> Seq<u8> {
    Seq::new(32, |i: int| 0xffu8)
}

/// Abstract epoch: its number, the set of spent nullifiers, and the
/// commitments of the outputs created in it, in order.
pub struct EpochView {
    pub number: u64,
    pub spent: Set<Seq<u8>>,
    pub commitments: Seq<Seq<u8>>,
}

/// A fresh epoch: nothing spent, nothing created.
pub open spec fn empty_epoch(number: u64) -> EpochView {
    EpochView { number, spent: Set::empty(), commitments: Seq::empty() }
}

/// Spending `n` in epoch `e`: refused as a double spend when `n` is already
/// spent there, else `n` joins the spent set.
pub open spec fn epoch_spend(e: EpochView, n: Seq<u8>) -> (EpochView, Result<(), UtxoError>) {
    if e.spent.contains(n) {
        (e, Err(UtxoError::DoubleSpend))
    } else {
        (EpochView { number: e.number, spent: e.spent.insert(n), commitments: e.commitments }, Ok(()))
    }
}

/// Epoch state: nullifier tree and spent set, output commitments.
#[derive(Clone, Debug)]
pub struct EpochState {
    pub epoch_number: u64,
    pub nullifier_tree: SparseMerkleTree,
    pub spent_nullifiers: Vec<crate::crypto::Hash>,
    pub utxo_commitments: Vec<crate::crypto::Hash>,
}

impl View for EpochState {
    type V = EpochView;

    open spec fn view(&self) -> EpochView {
        EpochView {
            number: self.epoch_number,
            spent: hash_views(self.spent_nullifiers@).to_set(),
            commitments: hash_views(self.utxo_commitments@),
        }
    }
}

impl EpochState {
    /// No nullifier listed twice; the tree holds exactly the spent
    /// nullifiers, each under the spent marker.
    pub open spec fn well_formed(&self) -> bool {
        &&& hash_views(self.spent_nullifiers@).no_duplicates()
        &&& self.nullifier_tree.well_formed()
        &&& forall|k: Seq<u8>|
            #[trigger] self.nullifier_tree.lookup(k) == if hash_views(
                self.spent_nullifiers@,
            ).contains(k) {
                Some(spent_marker())
            } else {
                None::<Seq<u8>>
            }
    }

    /// Empty state for epoch `epoch`.
    pub fn new(epoch: u64) -> (e: Self)
        ensures
            e.well_formed(),
            e@ == empty_epoch(epoch),
    {
        let e = EpochState {
            epoch_number: epoch,
            nullifier_tree: SparseMerkleTree::new(),
            spent_nullifiers: Vec::new(),
            utxo_commitments: Vec::new(),
        };
        assert(hash_views(e.spent_nullifiers@) =~= Seq::<Seq<u8>>::empty());
        assert(hash_views(e.utxo_commitments@) =~= Seq::<Seq<u8>>::empty());
        assert(e@.spent =~= Set::<Seq<u8>>::empty());
        e
    }

    fn is_spent(&self, nullifier: &crate::crypto::Hash) -> (r: bool)
        ensures
            r == hash_views(self.spent_nullifiers@).contains(nullifier@),
    {
        let n = self.spent_nullifiers.len();
        let mut i: usize = 0;
        while i < n
            invariant
                0 <= i <= n,
                n == self.spent_nullifiers@.len(),
                forall|j: int| 0 <= j < i ==> hash_views(self.spent_nullifiers@)[j] != nullifier@,
            decreases n - i,
        {
            if hash_eq(&self.spent_nullifiers[i], nullifier) {
                assert(hash_views(self.spent_nullifiers@)[i as int] == nullifier@);
                return true;
            }
            i = i + 1;
        }
        false
    }

    /// Marks `nullifier` spent; a nullifier already spent in this epoch is
    /// refused and nothing changes.
    pub fn spend(&mut self, nullifier: &crate::crypto::Hash) -> (r: Result<(), UtxoError>)
        requires
            old(self).well_formed(),
        ensures
            final(self).well_formed(),
            (final(self)@, r) == epoch_spend(old(self)@, nullifier@),
    {
        if self.is_spent(nullifier) {
            return Err(UtxoError::DoubleSpend);
        }
        let ghost old_spent = hash_views(self.spent_nullifiers@);
        let marker: crate::crypto::Hash = [0xffu8; 32];
        assert(marker@ =~= spent_marker());
        self.spent_nullifiers.push(*nullifier);
        self.nullifier_tree.insert(nullifier, &marker);
        proof {
            let sv = hash_views(self.spent_nullifiers@);
            assert(sv =~= old_spent.push(nullifier@));
            old_spent.lemma_push_to_set_commute(nullifier@);
            assert forall|k: Seq<u8>| #[trigger] sv.contains(k) <==> (old_spent.contains(k) || k
                == nullifier@) by {
                if sv.contains(k) {
                    let j = choose|j: int| 0 <= j < sv.len() && sv[j] == k;
                    if j < old_spent.len() {
                        assert(old_spent[j] == k);
                    }
                }
                if old_spent.contains(k) {
                    let j = choose|j: int| 0 <= j < old_spent.len() && old_spent[j] == k;
                    assert(sv[j] == k);
                }
                if k == nullifier@ {
                    assert(sv[sv.len() - 1] == k);
                }
            }
            assert forall|a: int, b: int| 0 <= a < sv.len() && 0 <= b < sv.len() && a != b implies sv[a]
                != sv[b] by {
                if a == sv.len() - 1 {
                    assert(old_spent.contains(sv[b]));
                } else if b == sv.len() - 1 {
                    assert(old_spent.contains(sv[a]));
                }
            }
        }
        Ok(())
    }

    /// Root of the nullifier tree: the root over the spent set.
    pub fn root(&self) -> (r: crate::crypto::Hash)
        ensures
            r@ == self.nullifier_tree.root_bytes(),
            self.well_formed() ==> r@ == set_root(self@.spent),
    {
        proof {
            if self.well_formed() {
                self.nullifier_tree.lemma_root_is_set_root();
                assert(self.nullifier_tree.key_set() =~= self@.spent);
            }
        }
        self.nullifier_tree.root_hash()
    }
}

/// Abstract UTXO state.
pub struct UtxoView {
    pub current_epoch: u64,
    pub current_block: u64,
    pub epochs: Map<u64, EpochView>,
    pub mempool: Seq<Transaction>,
}

/// The nullifiers revealed by `inputs`, in order.
pub open spec fn nullifiers(inputs: Seq<TxInput>) -> Seq<Seq<u8>> {
    Seq::new(inputs.len(), |i: int| inputs[i].nullifier@)
}

/// The commitment hashes of `outputs`, in order.
pub open spec fn output_hashes(outputs: Seq<TxOutput>) -> Seq<Seq<u8>> {
    Seq::new(outputs.len(), |i: int| outputs[i].commitment.spec_hash())
}

/// Spends `ns` in order in epoch `e`, stopping at the first refused one
/// (the ones before it stay spent).
pub open spec fn spend_all(e: EpochView, ns: Seq<Seq<u8>>) -> (EpochView, Result<(), UtxoError>)
    decreases ns.len(),
{
    if ns.len() == 0 {
        (e, Ok(()))
    } else {
        let (e1, r) = epoch_spend(e, ns[0]);
        if r is Err {
            (e1, r)
        } else {
            spend_all(e1, ns.drop_first())
        }
    }
}

/// Applying `tx`: in the current epoch, spend its nullifiers in order; if all
/// are accepted, record its output commitments. Without a current epoch the
/// transaction is refused with `EpochMismatch` and nothing changes.
pub open spec fn utxo_apply_tx(s: UtxoView, tx: Transaction) -> (UtxoView, Result<(), UtxoError>) {
    if !s.epochs.contains_key(s.current_epoch) {
        (s, Err(UtxoError::EpochMismatch))
    } else {
        let (e1, r) = spend_all(s.epochs[s.current_epoch], nullifiers(tx.inputs@));
        let e2 = if r is Ok {
            EpochView {
                number: e1.number,
                spent: e1.spent,
                commitments: e1.commitments + output_hashes(tx.outputs@),
            }
        } else {
            e1
        };
        (
            UtxoView {
                current_epoch: s.current_epoch,
                current_block: s.current_block,
                epochs: s.epochs.insert(s.current_epoch, e2),
                mempool: s.mempool,
            },
            r,
        )
    }
}

/// The epochs of `m` that are not more than three behind epoch `e`.
pub open spec fn prune(m: Map<u64, EpochView>, e: u64) -> Map<u64, EpochView> {
    Map::new(|k: u64| m.contains_key(k) && k + 3 >= e, |k: u64| m[k])
}

/// One block later: the block count goes up; when it enters a new epoch,
/// that epoch starts empty and the epochs more than three behind it go.
pub open spec fn utxo_advance(s: UtxoView) -> UtxoView {
    let b = (s.current_block + 1) as u64;
    let e = b / EPOCH_LENGTH;
    if e != s.current_epoch {
        UtxoView {
            current_epoch: e,
            current_block: b,
            epochs: prune(s.epochs.insert(e, empty_epoch(e)), e),
            mempool: s.mempool,
        }
    } else {
        UtxoView {
            current_epoch: s.current_epoch,
            current_block: b,
            epochs: s.epochs,
            mempool: s.mempool,
        }
    }
}

/// Putting a well-formed epoch back under its own number after taking it
/// out: the view changes at that number only, and well-formedness holds.
proof fn lemma_reinsert_epoch(m0: Map<u64, EpochState>, cur: u64, e: EpochState)
    requires
        forall|k: u64| #[trigger]
            m0.contains_key(k) ==> m0[k].well_formed() && m0[k].epoch_number == k,
        e.well_formed(),
        e.epoch_number == cur,
    ensures
        m0.remove(cur).insert(cur, e).map_values(|x: EpochState| x@) =~= m0.map_values(
            |x: EpochState| x@,
        ).insert(cur, e@),
        forall|k: u64| #[trigger]
            m0.remove(cur).insert(cur, e).contains_key(k) ==> m0.remove(cur).insert(cur, e)[k].well_formed()
                && m0.remove(cur).insert(cur, e)[k].epoch_number == k,
{
}

/// Applying `txs` in order; a refused transaction is skipped (what it
/// spent before the refusal stays spent).
pub open spec fn apply_txs(s: UtxoView, txs: Seq<Transaction>) -> UtxoView
    decreases txs.len(),
{
    if txs.len() == 0 {
        s
    } else {
        apply_txs(utxo_apply_tx(s, txs[0]).0, txs.drop_first())
    }
}

/// A decided block: its transactions applied, one block later, the mempool
/// emptied.
pub open spec fn utxo_apply_block(s: UtxoView, txs: Seq<Transaction>) -> UtxoView {
    UtxoView { mempool: Seq::empty(), ..utxo_advance(apply_txs(s, txs)) }
}

/// Applying transactions moves neither the block nor the epoch.
pub proof fn lemma_apply_txs_keeps_clock(s: UtxoView, txs: Seq<Transaction>)
    ensures
        apply_txs(s, txs).current_block == s.current_block,
        apply_txs(s, txs).current_epoch == s.current_epoch,
    decreases txs.len(),
{
    if txs.len() > 0 {
        let s1 = utxo_apply_tx(s, txs[0]).0;
        if s.epochs.contains_key(s.current_epoch) {
            lemma_spend_all_grows(s.epochs[s.current_epoch], nullifiers(txs[0].inputs@));
        }
        lemma_apply_txs_keeps_clock(s1, txs.drop_first());
    }
}

/// UTXO state across epochs.
#[derive(Clone, Debug)]
pub struct UtxoState {
    pub current_epoch: u64,
    pub current_block: u64,
    pub epochs: HashMap<u64, EpochState>,
    pub mempool: Vec<Transaction>,
    db_path: Option<String>,
}

impl View for UtxoState {
    type V = UtxoView;

    closed spec fn view(&self) -> UtxoView {
        UtxoView {
            current_epoch: self.current_epoch,
            current_block: self.current_block,
            epochs: self.epochs@.map_values(|e: EpochState| e@),
            mempool: self.mempool@,
        }
    }
}

impl UtxoState {
    /// Every stored epoch is well formed and stored under its own number.
    pub closed spec fn well_formed(&self) -> bool {
        forall|k: u64| #[trigger]
            self.epochs@.contains_key(k) ==> self.epochs@[k].well_formed()
                && self.epochs@[k].epoch_number == k
    }

    /// The state keeps finitely many epochs, each under its own number.
    pub proof fn lemma_view_epochs(&self)
        requires
            self.well_formed(),
        ensures
            self@.epochs.dom().finite(),
            forall|k: u64| #[trigger]
                self@.epochs.contains_key(k) ==> self@.epochs[k].number == k,
    {
        vstd::std_specs::hash::axiom_hashmap_view_finite_dom(self.epochs);
        assert(self@.epochs.dom() =~= self.epochs@.dom());
    }

    /// Path of the store the state is persisted to, if any.
    pub closed spec fn spec_db_path(&self) -> Option<String> {
        self.db_path
    }

    /// Block 0 of epoch 0, with epoch 0 empty and nothing pending.
    pub fn new() -> (s: Self)
        ensures
            s.well_formed(),
            s@ == (UtxoView {
                current_epoch: 0,
                current_block: 0,
                epochs: map![0u64 => empty_epoch(0)],
                mempool: Seq::empty(),
            }),
            s.spec_db_path() is None,
    {
        let mut epochs: HashMap<u64, EpochState> = HashMap::new();
        epochs.insert(0, EpochState::new(0));
        let s = UtxoState {
            current_epoch: 0,
            current_block: 0,
            epochs,
            mempool: Vec::new(),
            db_path: None,
        };
        assert(s@.epochs =~= map![0u64 => empty_epoch(0)]);
        s
    }

    /// Path of the store the state is persisted to, if any.
    pub fn db_path(&self) -> (p: Option<&String>)
        ensures
            match p {
                Some(q) => self.spec_db_path() == Some(*q),
                None => self.spec_db_path() is None,
            },
    {
        self.db_path.as_ref()
    }

    /// Sets the path of the store the state is persisted to.
    pub fn set_db_path(&mut self, path: Option<String>)
        ensures
            final(self)@ == old(self)@,
            final(self).spec_db_path() == path,
            old(self).well_formed() ==> final(self).well_formed(),
    {
        self.db_path = path;
    }

    /// The state of epoch `n`, if it is still kept.
    pub fn epoch(&self, n: u64) -> (e: Option<&EpochState>)
        ensures
            match e {
                Some(st) => self@.epochs.contains_key(n) && st@ == self@.epochs[n] && (
                self.well_formed() ==> st.well_formed()),
                None => !self@.epochs.contains_key(n),
            },
    {
        self.epochs.get(&n)
    }

    /// Applies `tx` to the current epoch: spends its nullifiers in order
    /// (stopping at a double spend, the earlier ones staying spent) and, when
    /// all are accepted, records the commitments of its outputs.
    #[verifier::loop_isolation(false)]
    pub fn apply_tx(&mut self, tx: &Transaction) -> (r: Result<(), UtxoError>)
        requires
            old(self).well_formed(),
        ensures
            final(self).well_formed(),
            (final(self)@, r) == utxo_apply_tx(old(self)@, *tx),
            final(self).spec_db_path() == old(self).spec_db_path(),
    {
        let cur = self.current_epoch;
        let ghost s0 = self@;
        let ghost m0 = self.epochs@;
        let removed = self.epochs.remove(&cur);
        let mut epoch = match removed {
            None => {
                assert(self.epochs@ =~= m0);
                return Err(UtxoError::EpochMismatch);
            },
            Some(e) => e,
        };
        assert(self.epochs@ =~= m0.remove(cur));
        let ghost ns = nullifiers(tx.inputs@);
        let ghost e0 = epoch@;
        assert(e0 == s0.epochs[cur]);
        let n = tx.inputs.len();
        assert(ns.subrange(0, n as int) =~= ns);
        let mut i: usize = 0;
        while i < n
            invariant
                0 <= i <= n,
                n == tx.inputs@.len(),
                ns == nullifiers(tx.inputs@),
                epoch.well_formed(),
                epoch.epoch_number == cur,
                spend_all(e0, ns) == spend_all(epoch@, ns.subrange(i as int, n as int)),
                self.epochs@ == m0.remove(cur),
                self.current_epoch == cur,
                self.current_block == old(self).current_block,
                self.mempool@ == old(self).mempool@,
                self.db_path == old(self).db_path,
            decreases n - i,
        {
            let r = epoch.spend(&tx.inputs[i].nullifier);
            assert(ns.subrange(i as int, n as int)[0] == tx.inputs@[i as int].nullifier@);
            assert(ns.subrange(i as int, n as int).drop_first() =~= ns.subrange(i + 1, n as int));
            match r {
                Err(err) => {
                    let ghost ev = epoch;
                    self.epochs.insert(cur, epoch);
                    proof {
                        lemma_reinsert_epoch(m0, cur, ev);
                    }
                    return Err(err);
                },
                Ok(()) => {},
            }
            i = i + 1;
        }
        assert(ns.subrange(n as int, n as int) =~= Seq::<Seq<u8>>::empty());
        let ghost e1 = epoch@;
        let m = tx.outputs.len();
        let mut j: usize = 0;
        while j < m
            invariant
                0 <= j <= m,
                m == tx.outputs@.len(),
                epoch.well_formed(),
                epoch.epoch_number == cur,
                epoch@.number == e1.number,
                epoch@.spent == e1.spent,
                epoch@.commitments == e1.commitments + output_hashes(tx.outputs@).take(j as int),
                self.epochs@ == m0.remove(cur),
                self.current_epoch == cur,
                self.current_block == old(self).current_block,
                self.mempool@ == old(self).mempool@,
                self.db_path == old(self).db_path,
            decreases m - j,
        {
            let h = tx.outputs[j].commitment.hash();
            let ghost cs = epoch.utxo_commitments@;
            epoch.utxo_commitments.push(h);
            assert(hash_views(epoch.utxo_commitments@) =~= hash_views(cs).push(h@));
            assert(output_hashes(tx.outputs@).take(j + 1) =~= output_hashes(tx.outputs@).take(
                j as int,
            ).push(h@));
            assert(epoch@.commitments =~= e1.commitments + output_hashes(tx.outputs@).take(j + 1));
            j = j + 1;
        }
        assert(output_hashes(tx.outputs@).take(m as int) =~= output_hashes(tx.outputs@));
        let ghost ev = epoch;
        self.epochs.insert(cur, epoch);
        proof {
            lemma_reinsert_epoch(m0, cur, ev);
            let e2 = EpochView {
                number: e1.number,
                spent: e1.spent,
                commitments: e1.commitments + output_hashes(tx.outputs@),
            };
            assert(epoch@ == e2);
            assert(self@.epochs =~= s0.epochs.insert(cur, e2));
        }
        Ok(())
    }

    /// Moves to the next block; entering a new epoch starts it empty and
    /// drops the epochs more than three behind it.
    #[verifier::loop_isolation(false)]
    pub fn advance_block(&mut self)
        requires
            old(self).well_formed(),
            old(self)@.current_block < u64::MAX,
        ensures
            final(self).well_formed(),
            final(self)@ == utxo_advance(old(self)@),
            final(self).spec_db_path() == old(self).spec_db_path(),
    {
        let ghost s0 = self@;
        self.current_block = self.current_block + 1;
        let new_epoch = self.current_block / EPOCH_LENGTH;
        if new_epoch != self.current_epoch {
            self.current_epoch = new_epoch;
            let ghost m0 = self.epochs@;
            let fresh = EpochState::new(new_epoch);
            let ghost fv = fresh;
            self.epochs.insert(new_epoch, fresh);
            let ghost m1 = self.epochs@;
            assert(m1 == m0.insert(new_epoch, fv));
            let mut to_remove: Vec<u64> = Vec::new();
            for e in it: self.epochs.keys()
                invariant
                    self.epochs@ == m1,
                    it.seq() == vstd::std_specs::hash::spec_keys_iter(&self.epochs).remaining(),
                    forall|j: int| 0 <= j < to_remove@.len() ==> #[trigger] to_remove@[j] + 3 < new_epoch,
                    forall|j: int|
                        0 <= j < it.index() ==> (*it.seq()[j] + 3 < new_epoch ==> to_remove@.contains(
                            *it.seq()[j],
                        )),
            {
                let ghost tr0 = to_remove@;
                if *e < new_epoch && new_epoch - *e > 3 {
                    to_remove.push(*e);
                }
                proof {
                    assert forall|y: u64| tr0.contains(y) implies to_remove@.contains(y) by {
                        let j = choose|j: int| 0 <= j < tr0.len() && tr0[j] == y;
                        assert(to_remove@[j] == y);
                    }
                    if *e + 3 < new_epoch {
                        assert(to_remove@[to_remove@.len() - 1] == *e);
                    }
                }
            }
            proof {
                let ks = vstd::std_specs::hash::spec_keys_iter(&self.epochs).remaining();
                assert forall|k: u64| m1.contains_key(k) && k + 3 < new_epoch implies to_remove@.contains(k) by {
                    assert(ks.unref().to_set().contains(k));
                    let j = choose|j: int| 0 <= j < ks.unref().len() && ks.unref()[j] == k;
                    assert(*ks[j] == k);
                }
            }
            let n = to_remove.len();
            let mut i: usize = 0;
            while i < n
                invariant
                    0 <= i <= n,
                    n == to_remove@.len(),
                    forall|k: u64| #[trigger]
                        self.epochs@.contains_key(k) == (m1.contains_key(k) && !to_remove@.take(
                            i as int,
                        ).contains(k)),
                    forall|k: u64| #[trigger] self.epochs@.contains_key(k) ==> self.epochs@[k] == m1[k],
                    self.current_epoch == new_epoch,
                    self.current_block == old(self).current_block + 1,
                    self.mempool@ == old(self).mempool@,
                    self.db_path == old(self).db_path,
                decreases n - i,
            {
                let ghost before = self.epochs@;
                self.epochs.remove(&to_remove[i]);
                proof {
                    assert(self.epochs@ == before.remove(to_remove@[i as int]));
                    assert(to_remove@.take(i + 1) =~= to_remove@.take(i as int).push(to_remove@[i as int]));
                    assert forall|k: u64| #[trigger]
                        self.epochs@.contains_key(k) == (m1.contains_key(k) && !to_remove@.take(
                            i + 1,
                        ).contains(k)) by {
                        if k == to_remove@[i as int] {
                            assert(to_remove@.take(i + 1)[i as int] == k);
                        }
                        if to_remove@.take(i as int).contains(k) {
                            let j = choose|j: int| 0 <= j < i && #[trigger] to_remove@.take(i as int)[j] == k;
                            assert(to_remove@.take(i + 1)[j] == k);
                        }
                        if to_remove@.take(i + 1).contains(k) && k != to_remove@[i as int] {
                            let j = choose|j: int| 0 <= j < i + 1 && #[trigger] to_remove@.take(i + 1)[j] == k;
                            assert(to_remove@.take(i as int)[j] == k);
                        }
                    }
                }
                i = i + 1;
            }
            proof {
                assert(to_remove@.take(n as int) =~= to_remove@);
                let fin = self.epochs@;
                assert forall|k: u64| #[trigger] fin.contains_key(k) == (m1.contains_key(k) && k + 3 >= new_epoch) by {
                    if to_remove@.contains(k) {
                        let j = choose|j: int| 0 <= j < to_remove@.len() && to_remove@[j] == k;
                        assert(to_remove@[j] + 3 < new_epoch);
                    }
                }
                assert(self@.epochs =~= utxo_advance(s0).epochs);
                assert forall|k: u64| #[trigger] fin.contains_key(k) implies fin[k].well_formed()
                    && fin[k].epoch_number == k by {
                    if k != new_epoch {
                        assert(m0.contains_key(k));
                    }
                }
            }
        }
    }

    /// Applies a decided block: each of `txs` in order (a refused one is
    /// skipped), then moves to the next block and empties the mempool.
    pub fn apply_block(&mut self, txs: &Vec<Transaction>)
        requires
            old(self).well_formed(),
            old(self)@.current_block < u64::MAX,
        ensures
            final(self).well_formed(),
            final(self)@ == utxo_apply_block(old(self)@, txs@),
            final(self).spec_db_path() == old(self).spec_db_path(),
    {
        let ghost s0 = self@;
        assert(txs@.subrange(0, txs@.len() as int) =~= txs@);
        let mut i: usize = 0;
        while i < txs.len()
            invariant
                0 <= i <= txs@.len(),
                self.well_formed(),
                apply_txs(s0, txs@) == apply_txs(self@, txs@.subrange(i as int, txs@.len() as int)),
                self.spec_db_path() == old(self).spec_db_path(),
            decreases txs@.len() - i,
        {
            let _ = self.apply_tx(&txs[i]);
            assert(txs@.subrange(i as int, txs@.len() as int).drop_first() =~= txs@.subrange(
                i + 1,
                txs@.len() as int,
            ));
            i = i + 1;
        }
        proof {
            assert(txs@.subrange(txs@.len() as int, txs@.len() as int) =~= Seq::<Transaction>::empty());
            lemma_apply_txs_keeps_clock(s0, txs@);
        }
        self.advance_block();
        self.mempool.clear();
        assert(self@ =~= utxo_apply_block(s0, txs@));
    }

    /// Queues a transaction.
    pub fn add_to_mempool(&mut self, tx: Transaction)
        ensures
            final(self)@ == (UtxoView { mempool: old(self)@.mempool.push(tx), ..old(self)@ }),
            old(self).well_formed() ==> final(self).well_formed(),
            final(self).spec_db_path() == old(self).spec_db_path(),
    {
        self.mempool.push(tx);
    }
}

/// Spending never forgets a nullifier, and a non-empty run of spends leaves
/// its first nullifier spent, whether it was accepted or refused.
proof fn lemma_spend_all_grows(e: EpochView, ns: Seq<Seq<u8>>)
    ensures
        e.spent.subset_of(spend_all(e, ns).0.spent),
        spend_all(e, ns).0.number == e.number,
        spend_all(e, ns).0.commitments == e.commitments,
        ns.len() > 0 ==> spend_all(e, ns).0.spent.contains(ns[0]),
    decreases ns.len(),
{
    if ns.len() > 0 {
        let (e1, r) = epoch_spend(e, ns[0]);
        if r is Ok {
            lemma_spend_all_grows(e1, ns.drop_first());
        }
    }
}

/// Law: no nullifier is spent twice. Applying the same transaction (with at
/// least one input) a second time to the same epoch is refused as a double
/// spend, whatever became of the first application.
pub proof fn lemma_replayed_tx_refused(s: UtxoView, tx: Transaction)
    requires
        s.epochs.contains_key(s.current_epoch),
        tx.inputs@.len() > 0,
    ensures
        utxo_apply_tx(utxo_apply_tx(s, tx).0, tx).1 == Err::<(), UtxoError>(UtxoError::DoubleSpend),
{
    let ns = nullifiers(tx.inputs@);
    lemma_spend_all_grows(s.epochs[s.current_epoch], ns);
    let s1 = utxo_apply_tx(s, tx).0;
    assert(s1.epochs[s1.current_epoch].spent.contains(ns[0]));
}

/// Law: applying a transaction never un-spends a nullifier, in any epoch,
/// and leaves the block, the epoch, the set of kept epochs and the mempool
/// as they were.
pub proof fn lemma_apply_tx_keeps_spent(s: UtxoView, tx: Transaction, k: u64)
    requires
        s.epochs.contains_key(k),
    ensures
        utxo_apply_tx(s, tx).0.epochs.contains_key(k),
        s.epochs[k].spent.subset_of(utxo_apply_tx(s, tx).0.epochs[k].spent),
        utxo_apply_tx(s, tx).0.epochs.dom() == s.epochs.dom(),
        utxo_apply_tx(s, tx).0.current_epoch == s.current_epoch,
        utxo_apply_tx(s, tx).0.current_block == s.current_block,
        utxo_apply_tx(s, tx).0.mempool == s.mempool,
{
    if s.epochs.contains_key(s.current_epoch) {
        lemma_spend_all_grows(s.epochs[s.current_epoch], nullifiers(tx.inputs@));
        assert(utxo_apply_tx(s, tx).0.epochs.dom() =~= s.epochs.dom());
    }
}

/// The kept epochs form the window of the last four: the current epoch is
/// kept, and every kept epoch is at most three behind it.
pub open spec fn epoch_window(s: UtxoView) -> bool {
    &&& s.current_epoch == s.current_block / EPOCH_LENGTH
    &&& s.epochs.contains_key(s.current_epoch)
    &&& forall|k: u64| #[trigger]
        s.epochs.contains_key(k) ==> k <= s.current_epoch && s.current_epoch <= k + 3
}

/// Law: storage stays bounded. A fresh state is in its epoch window, and
/// moving to the next block and applying transactions keep it there, so at
/// most four epochs are ever kept and the current one is always among them.
pub proof fn lemma_epoch_window(s: UtxoView, tx: Transaction)
    requires
        epoch_window(s),
        s.current_block < u64::MAX,
    ensures
        epoch_window(utxo_advance(s)),
        epoch_window(utxo_apply_tx(s, tx).0),
        epoch_window(
            UtxoView {
                current_epoch: 0,
                current_block: 0,
                epochs: map![0u64 => empty_epoch(0)],
                mempool: Seq::empty(),
            },
        ),
{
    let b = (s.current_block + 1) as u64;
    assert(b / EPOCH_LENGTH == s.current_epoch || b / EPOCH_LENGTH == s.current_epoch + 1) by {
        assert(s.current_block / 100 <= b / 100 <= s.current_block / 100 + 1) by (nonlinear_arith)
            requires
                b == s.current_block + 1,
        ;
    }
    assert(utxo_apply_tx(s, tx).0.epochs.dom() =~= s.epochs.dom());
}

/// In its epoch window a state keeps at most four epochs.
pub proof fn lemma_epoch_window_bounded(s: UtxoView)
    requires
        epoch_window(s),
    ensures
        s.epochs.dom().finite(),
        s.epochs.dom().len() <= 4,
{
    let c = s.current_epoch;
    let w = Set::<u64>::empty().insert(c).insert((c - 1) as u64).insert((c - 2) as u64).insert(
        (c - 3) as u64,
    );
    assert forall|k: u64| s.epochs.dom().contains(k) implies w.contains(k) by {
        assert(s.epochs.contains_key(k));
        assert(k == c || k == c - 1 || k == c - 2 || k == c - 3);
    }
    assert(w.finite());
    assert(w.len() <= 4);
    vstd::set_lib::lemma_len_subset(s.epochs.dom(), w);
}

/// Law: one block later the block count is one higher, the state is still
/// in its epoch window (so at most four epochs are kept), and the mempool is
/// untouched. When the block enters a new epoch, that epoch is the next
/// one, it starts empty, it is kept together with the old epochs at most
/// three behind it, and those keep their contents; otherwise the epochs are
/// unchanged.
pub proof fn lemma_advance_block_window(s: UtxoView)
    requires
        epoch_window(s),
        s.current_block < u64::MAX,
    ensures
        utxo_advance(s).current_block == s.current_block + 1,
        epoch_window(utxo_advance(s)),
        utxo_advance(s).epochs.dom().len() <= 4,
        utxo_advance(s).mempool == s.mempool,
        utxo_advance(s).current_epoch != s.current_epoch ==> {
            let t = utxo_advance(s);
            &&& t.current_epoch == s.current_epoch + 1
            &&& t.epochs.contains_key(t.current_epoch)
            &&& t.epochs[t.current_epoch] == empty_epoch(t.current_epoch)
            &&& forall|k: u64| #[trigger]
                t.epochs.contains_key(k) <==> (k == t.current_epoch || (s.epochs.contains_key(k)
                    && k + 3 >= t.current_epoch))
            &&& forall|k: u64| #[trigger]
                t.epochs.contains_key(k) && k != t.current_epoch ==> t.epochs[k] == s.epochs[k]
        },
        utxo_advance(s).current_epoch == s.current_epoch ==> utxo_advance(s).epochs == s.epochs,
{
    lemma_epoch_window(s, arbitrary());
    lemma_epoch_window_bounded(utxo_advance(s));
    let b = (s.current_block + 1) as u64;
    assert(b / EPOCH_LENGTH == s.current_epoch || b / EPOCH_LENGTH == s.current_epoch + 1) by {
        assert(s.current_block / 100 <= b / 100 <= s.current_block / 100 + 1) by (nonlinear_arith)
            requires
                b == s.current_block + 1,
        ;
    }
}

/// The state after `k` more blocks.
pub open spec fn advance_blocks(s: UtxoView, k: nat) -> UtxoView
    decreases k,
{
    if k == 0 {
        s
    } else {
        utxo_advance(advance_blocks(s, (k - 1) as nat))
    }
}

/// Law: storage stays bounded over any number of blocks. From a state in
/// its epoch window, after `k` blocks the block count is `k` higher and the
/// state is still in its window, keeping at most four epochs.
pub proof fn lemma_epochs_bounded_over_blocks(s: UtxoView, k: nat)
    requires
        epoch_window(s),
        s.current_block + k <= u64::MAX,
    ensures
        advance_blocks(s, k).current_block == s.current_block + k,
        epoch_window(advance_blocks(s, k)),
        advance_blocks(s, k).epochs.dom().len() <= 4,
    decreases k,
{
    if k > 0 {
        lemma_epochs_bounded_over_blocks(s, (k - 1) as nat);
        lemma_advance_block_window(advance_blocks(s, (k - 1) as nat));
    } else {
        lemma_epoch_window_bounded(s);
    }
}

/// Law: an accepted transaction appends to its epoch's output commitments,
/// after the ones already there and in output order, the Poseidon hash of
/// each output's own commitment bytes: entry `i` depends on output `i`
/// alone. A refused one appends nothing.
pub proof fn lemma_apply_tx_records_outputs(s: UtxoView, tx: Transaction)
    requires
        s.epochs.contains_key(s.current_epoch),
    ensures
        ({
            let c0 = s.epochs[s.current_epoch].commitments;
            let c1 = utxo_apply_tx(s, tx).0.epochs[s.current_epoch].commitments;
            &&& utxo_apply_tx(s, tx).1 is Ok ==> {
                &&& c1.len() == c0.len() + tx.outputs@.len()
                &&& forall|i: int| 0 <= i < c0.len() ==> c1[i] == c0[i]
                &&& forall|i: int|
                    0 <= i < tx.outputs@.len() ==> #[trigger] c1[c0.len() + i] == poseidon(
                        tx.outputs@[i].commitment.spec_bytes(),
                    )
            }
            &&& utxo_apply_tx(s, tx).1 is Err ==> c1 == c0
        }),
{
    lemma_spend_all_grows(s.epochs[s.current_epoch], nullifiers(tx.inputs@));
    let c0 = s.epochs[s.current_epoch].commitments;
    let c1 = utxo_apply_tx(s, tx).0.epochs[s.current_epoch].commitments;
    if utxo_apply_tx(s, tx).1 is Ok {
        assert(c1 == c0 + output_hashes(tx.outputs@));
        assert forall|i: int| 0 <= i < tx.outputs@.len() implies #[trigger] c1[c0.len() + i]
            == poseidon(tx.outputs@[i].commitment.spec_bytes()) by {
            assert(c1[c0.len() + i] == output_hashes(tx.outputs@)[i]);
        }
    }
}

} // verus!
