//! Orbital BFT: the per-height round state machine (propose, prepare,
//! commit, decide), block hashing and the 2f+1 quorum.
use vstd::prelude::*;
use crate::bytes::{le_bytes, push_u64_le, concat_map, lemma_concat_map_step};
use crate::crypto::{poseidon, poseidon256, extend_bytes, hash_eq};
use crate::utxo::{Transaction, UtxoState, u64_le, hash_views, utxo_apply_block};
use crate::net::NodeId;
use crate::entries::{has_key, keys_distinct, entry_map, lemma_entry_at, lemma_entry_map_update, lemma_entry_map_push, lemma_entry_map_remove, find_key};

verus! {

/// Seconds between proposal attempts.
pub const BLOCK_TIME_SECS: u64 = 3;

/// Validators of the test network.
pub const VALIDATOR_COUNT: usize = 4;

/// Consensus messages.
#[derive(Clone, Debug)]
pub enum ConsensusMsg {
    Propose {
        height: u64,
        round: u64,
        block_hash: crate::crypto::Hash,
        proposer: NodeId,
        timestamp: i64,
    },
    Prepare {
        height: u64,
        round: u64,
        block_hash: crate::crypto::Hash,
        validator: NodeId,
        signature: Vec<u8>,
    },
    Commit {
        height: u64,
        round: u64,
        block_hash: crate::crypto::Hash,
        validator: NodeId,
        signature: Vec<u8>,
    },
    Decide { height: u64, block_hash: crate::crypto::Hash, qc: Vec<u8> },
}

/// Block header.
#[derive(Clone, Debug)]
pub struct BlockHeader {
    pub height: u64,
    pub timestamp: i64,
    pub prev_hash: crate::crypto::Hash,
    pub tx_root: crate::crypto::Hash,
    pub state_root: crate::crypto::Hash,
    pub proposer: NodeId,
}

/// Full block.
#[derive(Clone, Debug)]
pub struct Block {
    pub header: BlockHeader,
    pub transactions: Vec<Transaction>,
}

impl BlockHeader {
    /// Canonical bytes: height, timestamp (two's complement), the three
    /// hashes, the proposer; numbers as eight little-endian bytes.
    pub open spec fn spec_encoding(self) -> Seq<u8> {
        u64_le(self.height as nat) + le_bytes((self.timestamp as u64) as nat, 8) + self.prev_hash@
            + self.tx_root@ + self.state_root@ + self.proposer@
    }

    /// The canonical bytes of the header.
    pub fn encode(&self) -> (out: Vec<u8>)
        ensures
            out@ == self.spec_encoding(),
    {
        let mut out: Vec<u8> = Vec::with_capacity(144);
        push_u64_le(&mut out, self.height);
        push_u64_le(&mut out, self.timestamp as u64);
        extend_bytes(&mut out, self.prev_hash.as_slice());
        extend_bytes(&mut out, self.tx_root.as_slice());
        extend_bytes(&mut out, self.state_root.as_slice());
        extend_bytes(&mut out, self.proposer.as_slice());
        assert(out@ =~= self.spec_encoding());
        out
    }
}

impl Block {
    /// Block id: Poseidon hash of the header's canonical bytes.
    pub fn hash(&self) -> (h: crate::crypto::Hash)
        ensures
            h@ == poseidon(self.header.spec_encoding()),
    {
        let bytes = self.header.encode();
        poseidon256(bytes.as_slice())
    }
}

/// Canonical bytes of a list of transactions: the count, then each one.
pub open spec fn txs_encoding(txs: Seq<Transaction>) -> Seq<u8> {
    u64_le(txs.len()) + concat_map(txs, |t: Transaction| t.spec_encoding())
}

/// The canonical bytes of a list of transactions.
pub fn encode_transactions(txs: &Vec<Transaction>) -> (out: Vec<u8>)
    ensures
        out@ == txs_encoding(txs@),
{
    let mut out: Vec<u8> = Vec::new();
    push_u64_le(&mut out, txs.len() as u64);
    let ghost mid = out@;
    let ghost f = |t: Transaction| t.spec_encoding();
    let mut i: usize = 0;
    while i < txs.len()
        invariant
            0 <= i <= txs@.len(),
            f == (|t: Transaction| t.spec_encoding()),
            out@ == mid + concat_map(txs@.take(i as int), f),
        decreases txs@.len() - i,
    {
        txs[i].encode_into(&mut out);
        proof {
            lemma_concat_map_step(txs@, f, i as int);
            assert(out@ =~= mid + concat_map(txs@.take(i + 1), f));
        }
        i = i + 1;
    }
    assert(txs@.take(txs@.len() as int) =~= txs@);
    assert(out@ =~= txs_encoding(txs@));
    out
}

/// Votes needed out of `n`: more than two thirds.
pub open spec fn spec_quorum(n: int) -> int {
    (2 * n) / 3 + 1
}

/// Votes needed out of `n` validators: `2n/3 + 1`.
pub fn quorum(n: usize) -> (q: usize)
    requires
        n <= usize::MAX / 2,
    ensures
        q == spec_quorum(n as int),
{
    (2 * n) / 3 + 1
}

/// Law: with `n = 3f + 1` validators the quorum is `2f + 1`, and two quorums
/// overlap in `f + 1` validators, one more than can be faulty.
pub proof fn lemma_quorum_bft(f: nat)
    ensures
        spec_quorum((3 * f + 1) as int) == 2 * f + 1,
        2 * spec_quorum((3 * f + 1) as int) - (3 * f + 1) == f + 1,
{
    assert((2 * (3 * f + 1)) / 3 == 2 * f) by {
        assert(2 * (3 * f + 1) == 3 * (2 * f) + 2);
    }
}

/// Law: a quorum is never more than all validators, and any two sets of
/// voters drawn from the same `n` validators that both reach the quorum
/// share a validator.
pub proof fn lemma_quorums_intersect(a: Set<Seq<u8>>, b: Set<Seq<u8>>, validators: Set<Seq<u8>>)
    requires
        validators.finite(),
        validators.len() >= 1,
        a.subset_of(validators),
        b.subset_of(validators),
        a.len() >= spec_quorum(validators.len() as int),
        b.len() >= spec_quorum(validators.len() as int),
    ensures
        spec_quorum(validators.len() as int) <= validators.len(),
        exists|v: Seq<u8>| a.contains(v) && b.contains(v),
{
    let n = validators.len() as int;
    vstd::set_lib::lemma_len_subset(a, validators);
    vstd::set_lib::lemma_len_subset(b, validators);
    vstd::set_lib::lemma_len_subset(a + b, validators);
    vstd::set_lib::lemma_set_intersect_union_lens(a, b);
    assert(2 * spec_quorum(n) > n);
    assert(a.intersect(b).len() > 0);
    if a.intersect(b) =~= Set::<Seq<u8>>::empty() {
        assert(a.intersect(b).len() == 0);
    }
    let v = a.intersect(b).choose();
    assert(a.intersect(b).contains(v));
}

/// Whether `v` lists `x`.
fn lists_node(v: &Vec<NodeId>, x: &NodeId) -> (r: bool)
    ensures
        r == hash_views(v@).contains(x@),
{
    let n = v.len();
    let mut i: usize = 0;
    while i < n
        invariant
            0 <= i <= n,
            n == v@.len(),
            forall|j: int| 0 <= j < i ==> hash_views(v@)[j] != x@,
        decreases n - i,
    {
        if hash_eq(&v[i], x) {
            assert(hash_views(v@)[i as int] == x@);
            return true;
        }
        i = i + 1;
    }
    false
}

/// Voters recorded per block hash.
pub type VoteTable = Vec<(crate::crypto::Hash, Vec<NodeId>)>;

/// Each block hash listed once, each voter once per block.
pub open spec fn votes_wf(s: Seq<(crate::crypto::Hash, Vec<NodeId>)>) -> bool {
    &&& keys_distinct(s)
    &&& forall|i: int| 0 <= i < s.len() ==> hash_views((#[trigger] s[i]).1@).no_duplicates()
}

/// The voters of each block hash, as sets of node ids.
pub open spec fn votes_view(s: Seq<(crate::crypto::Hash, Vec<NodeId>)>) -> Map<Seq<u8>, Set<Seq<u8>>> {
    entry_map(s).map_values(|v: Vec<NodeId>| hash_views(v@).to_set())
}

/// The voters recorded for `k` (none when `k` has no entry).
pub open spec fn voters_of(m: Map<Seq<u8>, Set<Seq<u8>>>, k: Seq<u8>) -> Set<Seq<u8>> {
    if m.contains_key(k) {
        m[k]
    } else {
        Set::empty()
    }
}

/// `m` with `v` added to the voters of `k`.
pub open spec fn add_vote(m: Map<Seq<u8>, Set<Seq<u8>>>, k: Seq<u8>, v: Seq<u8>) -> Map<
    Seq<u8>,
    Set<Seq<u8>>,
> {
    m.insert(k, voters_of(m, k).insert(v))
}

/// Records `voter`'s vote for `block_hash`; returns how many distinct
/// validators have now voted for it.
fn record_vote(votes: &mut VoteTable, block_hash: &crate::crypto::Hash, voter: &NodeId) -> (count: usize)
    requires
        votes_wf(old(votes)@),
    ensures
        votes_wf(final(votes)@),
        votes_view(final(votes)@) == add_vote(votes_view(old(votes)@), block_hash@, voter@),
        count == votes_view(final(votes)@)[block_hash@].len(),
{
    let ghost s0 = votes@;
    match find_key(votes, block_hash) {
        Some(i) => {
            let (h, mut vs) = votes.remove(i);
            let ghost old_vs = vs@;
            if !lists_node(&vs, voter) {
                vs.push(*voter);
                proof {
                    let a = hash_views(old_vs);
                    let b = hash_views(vs@);
                    assert(b =~= a.push(voter@));
                    a.lemma_push_to_set_commute(voter@);
                    assert forall|x: int, y: int| 0 <= x < b.len() && 0 <= y < b.len() && x != y implies b[x]
                        != b[y] by {
                        if x == a.len() {
                            assert(a.contains(b[y]));
                        } else if y == a.len() {
                            assert(a.contains(b[x]));
                        }
                    }
                }
            } else {
                proof {
                    let a = hash_views(old_vs);
                    assert(a.to_set() =~= a.to_set().insert(voter@));
                }
            }
            let count = vs.len();
            votes.insert(i, (h, vs));
            proof {
                let t = s0.update(i as int, (h, vs));
                assert(votes@ =~= t);
                lemma_entry_map_update(s0, i as int, vs);
                lemma_entry_at(s0, i as int);
                hash_views(vs@).unique_seq_to_set();
                assert(forall|j: int| 0 <= j < t.len() && j != i ==> t[j] == s0[j]);
                assert(votes_view(votes@) =~= add_vote(votes_view(s0), block_hash@, voter@));
            }
            count
        },
        None => {
            let mut vs: Vec<NodeId> = Vec::new();
            vs.push(*voter);
            let ghost e = (*block_hash, vs);
            votes.push((*block_hash, vs));
            proof {
                lemma_entry_map_push(s0, e);
                assert(hash_views(vs@) =~= seq![voter@]);
                assert forall|y: Seq<u8>| hash_views(vs@).to_set().contains(y) <==> y == voter@ by {
                    if y == voter@ {
                        assert(hash_views(vs@)[0] == y);
                    }
                }
                assert(hash_views(vs@).to_set() =~= Set::<Seq<u8>>::empty().insert(voter@));
                hash_views(vs@).unique_seq_to_set();
                assert(votes_view(votes@) =~= add_vote(votes_view(s0), block_hash@, voter@));
            }
            1
        },
    }
}

/// How many distinct validators would have voted for `block_hash` once
/// `voter`'s vote were recorded, without recording it.
fn votes_with(votes: &VoteTable, block_hash: &crate::crypto::Hash, voter: &NodeId) -> (count: u128)
    requires
        votes_wf(votes@),
    ensures
        count == add_vote(votes_view(votes@), block_hash@, voter@)[block_hash@].len(),
{
    match find_key(votes, block_hash) {
        Some(i) => {
            let vs = &votes[i].1;
            proof {
                lemma_entry_at(votes@, i as int);
                hash_views(vs@).unique_seq_to_set();
                assert(voters_of(votes_view(votes@), block_hash@) == hash_views(vs@).to_set());
            }
            if lists_node(vs, voter) {
                proof {
                    assert(hash_views(vs@).to_set().insert(voter@) =~= hash_views(vs@).to_set());
                }
                vs.len() as u128
            } else {
                proof {
                    assert(!hash_views(vs@).to_set().contains(voter@));
                }
                vs.len() as u128 + 1
            }
        },
        None => {
            proof {
                assert(!votes_view(votes@).contains_key(block_hash@));
                assert(Set::<Seq<u8>>::empty().insert(voter@).len() == 1);
            }
            1
        },
    }
}

/// Step of the current round.
#[derive(Clone, Copy, Debug, PartialEq, Eq, Structural)]
pub enum ConsensusStep {
    NewHeight,
    Propose,
    Prepare,
    Commit,
    Decide,
}

impl Default for ConsensusStep {
    fn default() -> (s: Self)
        ensures
            s == ConsensusStep::NewHeight,
    {
        ConsensusStep::NewHeight
    }
}

/// Errors of the consensus engine.
#[derive(Debug)]
pub enum ConsensusError {
    InvalidProposer(u64),
    DoubleProposal,
    QuorumNotReached,
    InvalidSignature,
}

/// Abstract round state.
pub struct RoundView {
    pub height: u64,
    pub round: u64,
    pub step: ConsensusStep,
    pub proposals: Map<Seq<u8>, Block>,
    pub prepare_votes: Map<Seq<u8>, Set<Seq<u8>>>,
    pub commit_votes: Map<Seq<u8>, Set<Seq<u8>>>,
    pub locked_block: Option<Seq<u8>>,
}

/// Consensus state for the current height and round.
#[derive(Clone, Debug)]
pub struct RoundState {
    pub height: u64,
    pub round: u64,
    pub step: ConsensusStep,
    pub proposals: Vec<(crate::crypto::Hash, Block)>,
    pub prepare_votes: VoteTable,
    pub commit_votes: VoteTable,
    pub locked_block: Option<crate::crypto::Hash>,
}

impl View for RoundState {
    type V = RoundView;

    open spec fn view(&self) -> RoundView {
        RoundView {
            height: self.height,
            round: self.round,
            step: self.step,
            proposals: entry_map(self.proposals@),
            prepare_votes: votes_view(self.prepare_votes@),
            commit_votes: votes_view(self.commit_votes@),
            locked_block: match self.locked_block {
                Some(h) => Some(h@),
                None => None,
            },
        }
    }
}

impl Default for RoundState {
    fn default() -> (s: Self)
        ensures
            s.well_formed(),
            s@ == (RoundView {
                height: 0,
                round: 0,
                step: ConsensusStep::NewHeight,
                proposals: Map::empty(),
                prepare_votes: Map::empty(),
                commit_votes: Map::empty(),
                locked_block: None,
            }),
    {
        let s = RoundState {
            height: 0,
            round: 0,
            step: ConsensusStep::NewHeight,
            proposals: Vec::new(),
            prepare_votes: Vec::new(),
            commit_votes: Vec::new(),
            locked_block: None,
        };
        assert(entry_map(s.proposals@) =~= Map::<Seq<u8>, Block>::empty());
        assert(entry_map(s.prepare_votes@) =~= Map::<Seq<u8>, Vec<NodeId>>::empty());
        assert(votes_view(s.prepare_votes@) =~= Map::<Seq<u8>, Set<Seq<u8>>>::empty());
        assert(votes_view(s.commit_votes@) =~= Map::<Seq<u8>, Set<Seq<u8>>>::empty());
        s
    }
}

/// Index of the proposer of `round` at `height` among `n` validators
/// (round robin).
pub open spec fn proposer_index(height: u64, round: u64, n: nat) -> int {
    (height + round) % (n as int)
}

/// The state after a message: a proposal locks on its block and moves to
/// prepare (when at new-height or propose); a prepare or commit vote is
/// recorded, and the quorum of prepares moves prepare to commit, the quorum
/// of commits moves commit to the next height (round 0, new-height) and
/// takes the decided proposal out; a decision changes nothing.
pub open spec fn round_on_msg(s: RoundView, n: nat, msg: ConsensusMsg) -> RoundView {
    match msg {
        ConsensusMsg::Propose { block_hash, .. } => {
            if s.step == ConsensusStep::NewHeight || s.step == ConsensusStep::Propose {
                RoundView { step: ConsensusStep::Prepare, locked_block: Some(block_hash@), ..s }
            } else {
                s
            }
        },
        ConsensusMsg::Prepare { block_hash, validator, .. } => {
            let pv = add_vote(s.prepare_votes, block_hash@, validator@);
            if pv[block_hash@].len() >= spec_quorum(n as int) && s.step == ConsensusStep::Prepare {
                RoundView { prepare_votes: pv, step: ConsensusStep::Commit, ..s }
            } else {
                RoundView { prepare_votes: pv, ..s }
            }
        },
        ConsensusMsg::Commit { block_hash, validator, .. } => {
            let cv = add_vote(s.commit_votes, block_hash@, validator@);
            if cv[block_hash@].len() >= spec_quorum(n as int) && s.step == ConsensusStep::Commit {
                RoundView {
                    height: (s.height + 1) as u64,
                    round: 0,
                    step: ConsensusStep::NewHeight,
                    proposals: s.proposals.remove(block_hash@),
                    commit_votes: cv,
                    ..s
                }
            } else {
                RoundView { commit_votes: cv, ..s }
            }
        },
        ConsensusMsg::Decide { .. } => s,
    }
}

/// A commit that completes a commit quorum in the commit step: the round
/// moves to the next height.
pub open spec fn commit_decides(s: RoundView, n: nat, msg: ConsensusMsg) -> bool {
    match msg {
        ConsensusMsg::Commit { block_hash, validator, .. } => {
            &&& s.step == ConsensusStep::Commit
            &&& add_vote(s.commit_votes, block_hash@, validator@)[block_hash@].len() >= spec_quorum(
                n as int,
            )
        },
        _ => false,
    }
}

/// The transactions to apply after a message: those of the decided block,
/// when a commit quorum decides a block that was proposed here.
pub open spec fn decided_txs(s: RoundView, n: nat, msg: ConsensusMsg) -> Option<Seq<Transaction>> {
    match msg {
        ConsensusMsg::Commit { block_hash, validator, .. } => {
            let cv = add_vote(s.commit_votes, block_hash@, validator@);
            if cv[block_hash@].len() >= spec_quorum(n as int) && s.step == ConsensusStep::Commit
                && s.proposals.contains_key(block_hash@) {
                Some(s.proposals[block_hash@].transactions@)
            } else {
                None
            }
        },
        _ => None,
    }
}

/// The vote this node sends after a message, if any: its prepare for a
/// proposal it locks on, its commit when prepares reach the quorum.
pub open spec fn is_reply(s: RoundView, n: nat, local: NodeId, msg: ConsensusMsg, out: Option<
    ConsensusMsg,
>) -> bool {
    match msg {
        ConsensusMsg::Propose { height, round, block_hash, .. } => {
            if s.step == ConsensusStep::NewHeight || s.step == ConsensusStep::Propose {
                out matches Some(
                    ConsensusMsg::Prepare { height: h, round: r, block_hash: b, validator: v, signature: sig },
                ) && h == height && r == round && b == block_hash && v == local && sig@.len() == 0
            } else {
                out is None
            }
        },
        ConsensusMsg::Prepare { height, round, block_hash, validator, .. } => {
            let pv = add_vote(s.prepare_votes, block_hash@, validator@);
            if pv[block_hash@].len() >= spec_quorum(n as int) && s.step == ConsensusStep::Prepare {
                out matches Some(
                    ConsensusMsg::Commit { height: h, round: r, block_hash: b, validator: v, signature: sig },
                ) && h == height && r == round && b == block_hash && v == local && sig@.len() == 0
            } else {
                out is None
            }
        },
        _ => out is None,
    }
}

impl RoundState {
    /// Proposals and votes each keyed once; no voter counted twice.
    pub open spec fn well_formed(&self) -> bool {
        &&& keys_distinct(self.proposals@)
        &&& votes_wf(self.prepare_votes@)
        &&& votes_wf(self.commit_votes@)
    }

    /// Whether `msg` is a commit that completes a commit quorum in the
    /// commit step, moving the round to the next height.
    pub fn commit_decides_exec(&self, n_validators: usize, msg: &ConsensusMsg) -> (b: bool)
        requires
            self.well_formed(),
            n_validators <= usize::MAX / 2,
        ensures
            b == commit_decides(self@, n_validators as nat, *msg),
    {
        match msg {
            ConsensusMsg::Commit { block_hash, validator, .. } => {
                let count = votes_with(&self.commit_votes, block_hash, validator);
                self.step == ConsensusStep::Commit && count >= quorum(n_validators) as u128
            },
            _ => false,
        }
    }

    /// On a timer tick: when this node proposes at this height and round
    /// (round robin over `validators`) and the round is at new-height, it
    /// moves to propose and answers `true`.
    pub fn on_timeout(&mut self, validators: &Vec<NodeId>, local_id: &NodeId) -> (propose: bool)
        requires
            validators@.len() > 0,
            old(self).height + old(self).round <= u64::MAX,
        ensures
            propose == (validators@[proposer_index(old(self).height, old(self).round, validators@.len())]
                == *local_id && old(self).step == ConsensusStep::NewHeight),
            propose ==> final(self)@ == (RoundView { step: ConsensusStep::Propose, ..old(self)@ }),
            !propose ==> final(self)@ == old(self)@,
            final(self).well_formed() == old(self).well_formed(),
    {
        let sum: u64 = self.height + self.round;
        let idx = (sum % (validators.len() as u64)) as usize;
        let is_proposer = hash_eq(&validators[idx], local_id);
        proof {
            if is_proposer {
                assert(validators@[idx as int]@ =~= local_id@);
            }
        }
        if is_proposer && self.step == ConsensusStep::NewHeight {
            self.step = ConsensusStep::Propose;
            true
        } else {
            false
        }
    }

    /// Handles a consensus message from a peer: updates the round as
    /// `round_on_msg` says, applies the decided block to `utxo` when a commit
    /// quorum decides one proposed here, and returns the vote to broadcast,
    /// if any.
    pub fn handle_consensus_msg(
        &mut self,
        utxo: &mut UtxoState,
        n_validators: usize,
        local_id: &NodeId,
        msg: ConsensusMsg,
    ) -> (out: Option<ConsensusMsg>)
        requires
            old(self).well_formed(),
            old(utxo).well_formed(),
            n_validators <= usize::MAX / 2,
            commit_decides(old(self)@, n_validators as nat, msg) ==> old(self).height < u64::MAX,
            decided_txs(old(self)@, n_validators as nat, msg) is Some ==> old(utxo)@.current_block
                < u64::MAX,
        ensures
            final(self).well_formed(),
            final(utxo).well_formed(),
            final(self)@ == round_on_msg(old(self)@, n_validators as nat, msg),
            is_reply(old(self)@, n_validators as nat, *local_id, msg, out),
            final(utxo)@ == match decided_txs(old(self)@, n_validators as nat, msg) {
                Some(txs) => utxo_apply_block(old(utxo)@, txs),
                None => old(utxo)@,
            },
            final(utxo).spec_db_path() == old(utxo).spec_db_path(),
    {
        let ghost s0 = self@;
        match msg {
            ConsensusMsg::Propose { height, round, block_hash, .. } => {
                if self.step == ConsensusStep::NewHeight || self.step == ConsensusStep::Propose {
                    self.step = ConsensusStep::Prepare;
                    self.locked_block = Some(block_hash);
                    Some(
                        ConsensusMsg::Prepare {
                            height,
                            round,
                            block_hash,
                            validator: *local_id,
                            signature: Vec::new(),
                        },
                    )
                } else {
                    None
                }
            },
            ConsensusMsg::Prepare { height, round, block_hash, validator, .. } => {
                let votes = record_vote(&mut self.prepare_votes, &block_hash, &validator);
                if votes >= quorum(n_validators) && self.step == ConsensusStep::Prepare {
                    self.step = ConsensusStep::Commit;
                    Some(
                        ConsensusMsg::Commit {
                            height,
                            round,
                            block_hash,
                            validator: *local_id,
                            signature: Vec::new(),
                        },
                    )
                } else {
                    None
                }
            },
            ConsensusMsg::Commit { block_hash, validator, .. } => {
                let votes = record_vote(&mut self.commit_votes, &block_hash, &validator);
                if votes >= quorum(n_validators) && self.step == ConsensusStep::Commit {
                    self.step = ConsensusStep::Decide;
                    self.height = self.height + 1;
                    self.round = 0;
                    self.step = ConsensusStep::NewHeight;
                    let ghost p0 = self.proposals@;
                    match find_key(&self.proposals, &block_hash) {
                        Some(i) => {
                            let (_, block) = self.proposals.remove(i);
                            proof {
                                lemma_entry_at(p0, i as int);
                                lemma_entry_map_remove(p0, i as int);
                            }
                            utxo.apply_block(&block.transactions);
                        },
                        None => {
                            assert(entry_map(p0).remove(block_hash@) =~= entry_map(p0));
                        },
                    }
                }
                None
            },
            ConsensusMsg::Decide { .. } => None,
        }
    }

    /// Builds this node's block at `height` from `txs` (stamped
    /// `header_time`), keeps it among the proposals under its hash, and
    /// returns the proposal to broadcast (stamped `msg_time`).
    pub fn propose_block(
        &mut self,
        height: u64,
        round: u64,
        local_id: &NodeId,
        txs: Vec<Transaction>,
        header_time: i64,
        msg_time: i64,
    ) -> (msg: ConsensusMsg)
        requires
            old(self).well_formed(),
        ensures
            final(self).well_formed(),
            msg matches ConsensusMsg::Propose { height: h, round: r, block_hash: b, proposer: p, timestamp: t }
                && h == height && r == round && p == *local_id && t == msg_time && ({
                let blk = final(self)@.proposals[b@];
                &&& final(self)@.proposals.contains_key(b@)
                &&& blk.transactions@ == txs@
                &&& blk.header.height == height
                &&& blk.header.timestamp == header_time
                &&& blk.header.prev_hash@ == Seq::new(32, |i: int| 0u8)
                &&& blk.header.tx_root@ == poseidon(txs_encoding(txs@))
                &&& blk.header.state_root@ == Seq::new(32, |i: int| 0u8)
                &&& blk.header.proposer == *local_id
                &&& b@ == poseidon(blk.header.spec_encoding())
                &&& final(self)@ == (RoundView {
                    proposals: old(self)@.proposals.insert(b@, blk),
                    ..old(self)@
                })
            }),
    {
        let tx_bytes = encode_transactions(&txs);
        let tx_root = poseidon256(tx_bytes.as_slice());
        let header = BlockHeader {
            height,
            timestamp: header_time,
            prev_hash: [0u8; 32],
            tx_root,
            state_root: [0u8; 32],
            proposer: *local_id,
        };
        let block = Block { header, transactions: txs };
        let block_hash = block.hash();
        let ghost blk = block;
        let ghost s0 = self.proposals@;
        match find_key(&self.proposals, &block_hash) {
            Some(i) => {
                let k = self.proposals[i].0;
                self.proposals.set(i, (k, block));
                proof {
                    lemma_entry_map_update(s0, i as int, blk);
                }
            },
            None => {
                self.proposals.push((block_hash, block));
                proof {
                    lemma_entry_map_push(s0, (block_hash, blk));
                }
            },
        }
        proof {
            assert(blk.header.prev_hash@ =~= Seq::new(32, |i: int| 0u8));
            assert(blk.header.state_root@ =~= Seq::new(32, |i: int| 0u8));
            assert(self@ =~= (RoundView { proposals: old(self)@.proposals.insert(block_hash@, blk), ..old(self)@ }));
        }
        ConsensusMsg::Propose {
            height,
            round,
            block_hash,
            proposer: *local_id,
            timestamp: msg_time,
        }
    }
}

/// Law: with `n = 3f + 1` validators of which at most `f` are faulty, any
/// two quorums share an honest validator; so two different blocks cannot
/// both gather a commit quorum at one height unless an honest validator
/// voted for both.
pub proof fn lemma_quorums_share_honest(
    a: Set<Seq<u8>>,
    b: Set<Seq<u8>>,
    validators: Set<Seq<u8>>,
    faulty: Set<Seq<u8>>,
    f: nat,
)
    requires
        validators.finite(),
        validators.len() == 3 * f + 1,
        faulty.subset_of(validators),
        faulty.len() <= f,
        a.subset_of(validators),
        b.subset_of(validators),
        a.len() >= spec_quorum(validators.len() as int),
        b.len() >= spec_quorum(validators.len() as int),
    ensures
        exists|v: Seq<u8>| a.contains(v) && b.contains(v) && !faulty.contains(v),
{
    lemma_quorum_bft(f);
    vstd::set_lib::lemma_len_subset(a, validators);
    vstd::set_lib::lemma_len_subset(b, validators);
    vstd::set_lib::lemma_len_subset(a + b, validators);
    vstd::set_lib::lemma_len_subset(faulty, validators);
    vstd::set_lib::lemma_set_intersect_union_lens(a, b);
    let both = a.intersect(b);
    let honest = both.difference(faulty);
    assert(honest.len() > 0) by {
        vstd::set_lib::lemma_len_subset(both.intersect(faulty), faulty);
        assert(both =~= honest + both.intersect(faulty));
        vstd::set_lib::lemma_set_intersect_union_lens(honest, both.intersect(faulty));
        assert(honest.intersect(both.intersect(faulty)) =~= Set::<Seq<u8>>::empty());
    }
    if honest =~= Set::<Seq<u8>>::empty() {
        assert(honest.len() == 0);
    }
    let v = honest.choose();
    assert(honest.contains(v));
}

/// Law (agreement across nodes): with `n = 3f + 1` validators of which at
/// most `f` are faulty, and honest validators casting a commit vote for at
/// most one block per height, two nodes whose recorded commit votes (each a
/// part of the votes cast, `cast`) reach a quorum for blocks `b1` and `b2`
/// at that height decide the same block.
pub proof fn lemma_commit_agreement(
    m1: Map<Seq<u8>, Set<Seq<u8>>>,
    m2: Map<Seq<u8>, Set<Seq<u8>>>,
    cast: Map<Seq<u8>, Set<Seq<u8>>>,
    b1: Seq<u8>,
    b2: Seq<u8>,
    validators: Set<Seq<u8>>,
    faulty: Set<Seq<u8>>,
    f: nat,
)
    requires
        validators.finite(),
        validators.len() == 3 * f + 1,
        faulty.subset_of(validators),
        faulty.len() <= f,
        voters_of(m1, b1).subset_of(voters_of(cast, b1)),
        voters_of(m2, b2).subset_of(voters_of(cast, b2)),
        voters_of(m1, b1).subset_of(validators),
        voters_of(m2, b2).subset_of(validators),
        forall|v: Seq<u8>, x: Seq<u8>, y: Seq<u8>|
            !faulty.contains(v) && #[trigger] voters_of(cast, x).contains(v)
                && #[trigger] voters_of(cast, y).contains(v) ==> x == y,
        voters_of(m1, b1).len() >= spec_quorum(validators.len() as int),
        voters_of(m2, b2).len() >= spec_quorum(validators.len() as int),
    ensures
        b1 == b2,
{
    lemma_quorums_share_honest(voters_of(m1, b1), voters_of(m2, b2), validators, faulty, f);
    let v = choose|v: Seq<u8>|
        voters_of(m1, b1).contains(v) && voters_of(m2, b2).contains(v) && !faulty.contains(v);
    assert(voters_of(cast, b1).contains(v));
    assert(voters_of(cast, b2).contains(v));
}

/// Law: a validator is counted once. Delivering the same vote again leaves
/// the recorded voters as they were after its first delivery.
pub proof fn lemma_vote_counted_once(s: RoundView, n: nat, msg: ConsensusMsg)
    ensures
        round_on_msg(round_on_msg(s, n, msg), n, msg).prepare_votes == round_on_msg(s, n, msg).prepare_votes,
        round_on_msg(round_on_msg(s, n, msg), n, msg).commit_votes == round_on_msg(s, n, msg).commit_votes,
{
    match msg {
        ConsensusMsg::Prepare { block_hash, validator, .. } => {
            let pv = add_vote(s.prepare_votes, block_hash@, validator@);
            assert(voters_of(pv, block_hash@).insert(validator@) =~= voters_of(pv, block_hash@));
            assert(add_vote(pv, block_hash@, validator@) =~= pv);
        },
        ConsensusMsg::Commit { block_hash, validator, .. } => {
            let cv = add_vote(s.commit_votes, block_hash@, validator@);
            assert(voters_of(cv, block_hash@).insert(validator@) =~= voters_of(cv, block_hash@));
            assert(add_vote(cv, block_hash@, validator@) =~= cv);
        },
        _ => {},
    }
}

/// Law: the height moves by at most one per message, and only when a
/// commit quorum is reached in the commit step; it then restarts at round 0.
pub proof fn lemma_height_advances_on_commit_quorum(s: RoundView, n: nat, msg: ConsensusMsg)
    requires
        commit_decides(s, n, msg) ==> s.height < u64::MAX,
    ensures
        round_on_msg(s, n, msg).height == s.height || round_on_msg(s, n, msg).height == s.height + 1,
        round_on_msg(s, n, msg).height == s.height + 1 ==> ({
            &&& s.step == ConsensusStep::Commit
            &&& msg is Commit
            &&& voters_of(round_on_msg(s, n, msg).commit_votes, msg->Commit_block_hash@).len()
                >= spec_quorum(n as int)
            &&& round_on_msg(s, n, msg).round == 0
            &&& round_on_msg(s, n, msg).step == ConsensusStep::NewHeight
        }),
{
}

/// Law: the step moves only along new-height or propose, then prepare,
/// then commit, then new-height. A message leaves the round in the commit
/// step only when it was in prepare or commit, in the prepare step only when
/// it was there or a proposal arrived at new-height or propose; a proposal
/// changes nothing outside new-height and propose, and a decision changes
/// nothing at all.
pub proof fn lemma_step_transitions(s: RoundView, n: nat, msg: ConsensusMsg)
    ensures
        round_on_msg(s, n, msg).step == ConsensusStep::Commit ==> (s.step == ConsensusStep::Prepare
            || s.step == ConsensusStep::Commit),
        round_on_msg(s, n, msg).step == ConsensusStep::Prepare ==> (s.step == ConsensusStep::Prepare
            || (msg is Propose && (s.step == ConsensusStep::NewHeight || s.step
            == ConsensusStep::Propose))),
        msg is Propose && round_on_msg(s, n, msg) != s ==> (s.step == ConsensusStep::NewHeight
            || s.step == ConsensusStep::Propose),
        msg is Decide ==> round_on_msg(s, n, msg) == s,
{
}

/// Validator `k` is the proposer at one of the `n` heights from `h0` on, at
/// round `round`.
pub open spec fn proposes_within(h0: u64, round: u64, n: nat, k: int) -> bool {
    exists|j: int| 0 <= j < n && #[trigger] proposer_index((h0 + j) as u64, round, n) == k
}

/// Law: round-robin rotation. At a fixed round, over any `n` consecutive
/// heights every one of the `n` validators is the proposer exactly once:
/// the proposers of those heights lie among the validators, are pairwise
/// different, and cover every validator.
pub proof fn lemma_proposer_rotation(h0: u64, round: u64, n: nat)
    requires
        n > 0,
        h0 + round + n <= u64::MAX,
    ensures
        forall|j: int|
            0 <= j < n ==> 0 <= #[trigger] proposer_index((h0 + j) as u64, round, n) < n,
        forall|j1: int, j2: int|
            0 <= j1 < j2 < n ==> #[trigger] proposer_index((h0 + j1) as u64, round, n)
                != #[trigger] proposer_index((h0 + j2) as u64, round, n),
        forall|k: int| 0 <= k < n ==> #[trigger] proposes_within(h0, round, n, k),
{
    let x = h0 + round;
    let nn = n as int;
    assert forall|j: int| 0 <= j < n implies 0 <= #[trigger] proposer_index((h0 + j) as u64, round, n)
        < n by {
        vstd::arithmetic::div_mod::lemma_mod_bound(x + j, nn);
    }
    assert forall|j1: int, j2: int| 0 <= j1 < j2 < n implies #[trigger] proposer_index(
        (h0 + j1) as u64,
        round,
        n,
    ) != #[trigger] proposer_index((h0 + j2) as u64, round, n) by {
        vstd::arithmetic::div_mod::lemma_fundamental_div_mod(x + j1, nn);
        vstd::arithmetic::div_mod::lemma_fundamental_div_mod(x + j2, nn);
        let q1 = (x + j1) / nn;
        let q2 = (x + j2) / nn;
        let r1 = (x + j1) % nn;
        let r2 = (x + j2) % nn;
        if r1 == r2 {
            assert(false) by (nonlinear_arith)
                requires
                    x + j1 == nn * q1 + r1,
                    x + j2 == nn * q2 + r2,
                    r1 == r2,
                    0 < j2 - j1 < nn,
            ;
        }
    }
    assert forall|k: int| 0 <= k < n implies #[trigger] proposes_within(h0, round, n, k) by {
        vstd::arithmetic::div_mod::lemma_fundamental_div_mod(x, nn);
        let q = x / nn;
        let r = x % nn;
        vstd::arithmetic::div_mod::lemma_mod_bound(x, nn);
        let j = if k >= r { k - r } else { k - r + nn };
        if k >= r {
            vstd::arithmetic::div_mod::lemma_fundamental_div_mod_converse(x + j, nn, q, k);
        } else {
            assert((q + 1) * nn == nn * q + nn) by (nonlinear_arith);
            vstd::arithmetic::div_mod::lemma_fundamental_div_mod_converse(x + j, nn, q + 1, k);
        }
        assert(proposer_index((h0 + j) as u64, round, n) == k);
    }
}

} // verus!
