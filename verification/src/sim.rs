//! Simulation bookkeeping: the metrics a run reports and the transactions
//! its agents generate.
use vstd::prelude::*;
use crate::crypto::LweCommitment;
use crate::utxo::{Transaction, TxInput, TxOutput, UtxoState, UtxoView, utxo_apply_tx};

verus! {

/// Metrics of a simulation run.
#[derive(Clone, Debug)]
pub struct SimMetrics {
    pub blocks_proposed: u64,
    pub txs_processed: u64,
    pub txs_failed: u64,
    pub consensus_rounds: u64,
    pub fpga_proofs: u64,
    pub fpga_energy_mj: u64,
    pub da_blobs_submitted: u64,
    pub da_blobs_failed: u64,
    pub byzantine_detected: u64,
    pub partition_healed: u64,
    pub total_duration_ms: u64,
}

impl Default for SimMetrics {
    fn default() -> (m: Self)
        ensures
            m.blocks_proposed == 0 && m.txs_processed == 0 && m.txs_failed == 0
                && m.consensus_rounds == 0 && m.fpga_proofs == 0 && m.fpga_energy_mj == 0
                && m.da_blobs_submitted == 0 && m.da_blobs_failed == 0 && m.byzantine_detected == 0
                && m.partition_healed == 0 && m.total_duration_ms == 0,
    {
        SimMetrics {
            blocks_proposed: 0,
            txs_processed: 0,
            txs_failed: 0,
            consensus_rounds: 0,
            fpga_proofs: 0,
            fpga_energy_mj: 0,
            da_blobs_submitted: 0,
            da_blobs_failed: 0,
            byzantine_detected: 0,
            partition_healed: 0,
            total_duration_ms: 0,
        }
    }
}

impl SimMetrics {
    /// Accounts for one generated transaction: an honest agent's accepted
    /// transaction is processed, its refused one failed; a Byzantine agent's
    /// refused transaction is a detection (its accepted one counts nowhere).
    pub fn record_tx(&mut self, accepted: bool, byzantine: bool)
        requires
            old(self).txs_processed < u64::MAX,
            old(self).txs_failed < u64::MAX,
            old(self).byzantine_detected < u64::MAX,
        ensures
            final(self).txs_processed == old(self).txs_processed + if accepted && !byzantine {
                1int
            } else {
                0int
            },
            final(self).txs_failed == old(self).txs_failed + if !accepted && !byzantine {
                1int
            } else {
                0int
            },
            final(self).byzantine_detected == old(self).byzantine_detected + if !accepted
                && byzantine {
                1int
            } else {
                0int
            },
            final(self).blocks_proposed == old(self).blocks_proposed,
            final(self).consensus_rounds == old(self).consensus_rounds,
            final(self).fpga_proofs == old(self).fpga_proofs,
            final(self).fpga_energy_mj == old(self).fpga_energy_mj,
            final(self).da_blobs_submitted == old(self).da_blobs_submitted,
            final(self).da_blobs_failed == old(self).da_blobs_failed,
            final(self).partition_healed == old(self).partition_healed,
            final(self).total_duration_ms == old(self).total_duration_ms,
    {
        if accepted {
            if !byzantine {
                self.txs_processed = self.txs_processed + 1;
            }
        } else {
            if byzantine {
                self.byzantine_detected = self.byzantine_detected + 1;
            } else {
                self.txs_failed = self.txs_failed + 1;
            }
        }
    }
}

/// Consensus rounds a run of `duration_secs` seconds holds at one block
/// every `block_time_ms` milliseconds.
pub fn consensus_rounds(duration_secs: u64, block_time_ms: u64) -> (r: u64)
    requires
        block_time_ms > 0,
        duration_secs * 1000 <= u64::MAX,
    ensures
        r == (duration_secs * 1000) as u64 / block_time_ms,
{
    duration_secs * 1000 / block_time_ms
}

/// The `i`-th transaction of a run: a Byzantine agent replays the nullifier
/// 0xFF.. with value 999 and no fee; an honest one spends nullifier
/// `i mod 256` (every byte) with value 100 and fee 1. The nonce is `i`.
pub fn sim_transaction(i: usize, byzantine: bool, commitment: LweCommitment) -> (tx: Transaction)
    ensures
        tx.inputs@.len() == 1,
        tx.inputs@[0].nullifier@ == Seq::new(32, |k: int| if byzantine { 0xFFu8 } else { (i % 256) as u8 }),
        tx.inputs@[0].spend_proof@.len() == 0,
        tx.outputs@.len() == 1,
        tx.outputs@[0].commitment == commitment,
        tx.outputs@[0].value == if byzantine { 999u64 } else { 100u64 },
        tx.fee == if byzantine { 0u64 } else { 1u64 },
        tx.nonce == i as u64,
{
    let b: u8 = if byzantine {
        0xFF
    } else {
        (i % 256) as u8
    };
    let nullifier = [b; 32];
    assert(nullifier@ =~= Seq::new(32, |k: int| if byzantine { 0xFFu8 } else { (i % 256) as u8 }));
    let mut inputs: Vec<TxInput> = Vec::new();
    inputs.push(TxInput { nullifier, spend_proof: Vec::new() });
    let mut outputs: Vec<TxOutput> = Vec::new();
    outputs.push(TxOutput { commitment, value: if byzantine { 999 } else { 100 } });
    Transaction { inputs, outputs, fee: if byzantine { 0 } else { 1 }, nonce: i as u64 }
}

/// One step of the transaction phase: agent state `state` (Byzantine or
/// not) generates the `i`-th transaction with a fresh random commitment,
/// applies it, and the outcome is counted; the transaction is returned.
pub fn sim_tx_step(i: usize, byzantine: bool, state: &mut UtxoState, metrics: &mut SimMetrics) -> (tx:
    Transaction)
    requires
        old(state).well_formed(),
        old(metrics).txs_processed < u64::MAX,
        old(metrics).txs_failed < u64::MAX,
        old(metrics).byzantine_detected < u64::MAX,
    ensures
        final(state).well_formed(),
        tx.inputs@.len() == 1,
        tx.inputs@[0].nullifier@ == Seq::new(32, |k: int| if byzantine { 0xFFu8 } else { (i % 256) as u8 }),
        tx.inputs@[0].spend_proof@.len() == 0,
        tx.outputs@.len() == 1,
        tx.outputs@[0].value == if byzantine { 999u64 } else { 100u64 },
        tx.fee == if byzantine { 0u64 } else { 1u64 },
        tx.nonce == i as u64,
        final(state)@ == utxo_apply_tx(old(state)@, tx).0,
        ({
            let accepted = utxo_apply_tx(old(state)@, tx).1 is Ok;
            &&& final(metrics).txs_processed == old(metrics).txs_processed + if accepted
                && !byzantine {
                1int
            } else {
                0int
            }
            &&& final(metrics).txs_failed == old(metrics).txs_failed + if !accepted && !byzantine {
                1int
            } else {
                0int
            }
            &&& final(metrics).byzantine_detected == old(metrics).byzantine_detected + if !accepted
                && byzantine {
                1int
            } else {
                0int
            }
        }),
        final(metrics).blocks_proposed == old(metrics).blocks_proposed,
        final(metrics).consensus_rounds == old(metrics).consensus_rounds,
        final(metrics).fpga_proofs == old(metrics).fpga_proofs,
        final(metrics).fpga_energy_mj == old(metrics).fpga_energy_mj,
        final(metrics).da_blobs_submitted == old(metrics).da_blobs_submitted,
        final(metrics).da_blobs_failed == old(metrics).da_blobs_failed,
        final(metrics).partition_healed == old(metrics).partition_healed,
        final(metrics).total_duration_ms == old(metrics).total_duration_ms,
{
    let tx = sim_transaction(i, byzantine, LweCommitment::new_random());
    let r = state.apply_tx(&tx);
    metrics.record_tx(r.is_ok(), byzantine);
    tx
}

/// How many of the first `m` transactions fall to honest agents, the
/// `i`-th going to agent `i mod n` of the `n` agents `byzantine` describes.
pub open spec fn honest_txs(byzantine: Seq<bool>, m: nat) -> int
    decreases m,
{
    if m == 0 {
        0
    } else {
        honest_txs(byzantine, (m - 1) as nat) + if byzantine[(m - 1) % byzantine.len() as int] {
            0int
        } else {
            1int
        }
    }
}

/// `tx` has the shape of the `i`-th transaction of a run generated by a
/// Byzantine agent or not (see `sim_transaction`); its output commitment is
/// left open, being random.
pub open spec fn is_sim_tx(tx: Transaction, i: int, byzantine: bool) -> bool {
    &&& tx.inputs@.len() == 1
    &&& tx.inputs@[0].nullifier@ == Seq::new(32, |k: int| if byzantine { 0xFFu8 } else { (i % 256) as u8 })
    &&& tx.inputs@[0].spend_proof@.len() == 0
    &&& tx.outputs@.len() == 1
    &&& tx.outputs@[0].value == if byzantine { 999u64 } else { 100u64 }
    &&& tx.fee == if byzantine { 0u64 } else { 1u64 }
    &&& tx.nonce == i as u64
}

/// The views of a sequence of states.
pub open spec fn views(states: Seq<UtxoState>) -> Seq<UtxoView> {
    Seq::new(states.len(), |a: int| states[a]@)
}

/// The transaction phase run on agent states `states`: transaction `i` of
/// `txs` goes to agent `i mod n` (Byzantine or not as `byzantine` says) and
/// is applied to its state. The result is the agents' states afterwards and
/// the numbers of honest transactions accepted, honest ones refused, and
/// Byzantine ones refused.
pub open spec fn sim_run(states: Seq<UtxoView>, byzantine: Seq<bool>, txs: Seq<Transaction>) -> (
    Seq<UtxoView>,
    int,
    int,
    int,
)
    decreases txs.len(),
{
    if txs.len() == 0 {
        (states, 0, 0, 0)
    } else {
        let prev = sim_run(states, byzantine, txs.drop_last());
        let a = (txs.len() - 1) % (byzantine.len() as int);
        let step = utxo_apply_tx(prev.0[a], txs.last());
        let accepted = step.1 is Ok;
        let b = byzantine[a];
        (
            prev.0.update(a, step.0),
            prev.1 + if accepted && !b { 1int } else { 0int },
            prev.2 + if !accepted && !b { 1int } else { 0int },
            prev.3 + if !accepted && b { 1int } else { 0int },
        )
    }
}

/// The transaction phase of a run: the `i`-th of `num_txs` transactions is
/// generated by agent `i mod n` (Byzantine or not as `byzantine` says),
/// applied to that agent's state, and its outcome counted. For the
/// transactions generated (of the shape `is_sim_tx` gives, commitments being
/// random), the states and counters afterwards are those of `sim_run`:
/// honest transactions accepted are processed, honest ones refused failed,
/// Byzantine ones refused detected. No agent's clock, epochs or mempool
/// move, and no spent nullifier is forgotten.
pub fn generate_transactions(
    states: &mut Vec<UtxoState>,
    byzantine: &Vec<bool>,
    num_txs: usize,
    metrics: &mut SimMetrics,
)
    requires
        old(states)@.len() == byzantine@.len(),
        num_txs > 0 ==> byzantine@.len() > 0,
        forall|a: int| 0 <= a < old(states)@.len() ==> #[trigger] old(states)@[a].well_formed(),
        old(metrics).txs_processed + num_txs <= u64::MAX,
        old(metrics).txs_failed + num_txs <= u64::MAX,
        old(metrics).byzantine_detected + num_txs <= u64::MAX,
    ensures
        final(states)@.len() == old(states)@.len(),
        forall|a: int| 0 <= a < final(states)@.len() ==> #[trigger] final(states)@[a].well_formed(),
        exists|txs: Seq<Transaction>|
            #![trigger sim_run(views(old(states)@), byzantine@, txs)]
            {
                let run = sim_run(views(old(states)@), byzantine@, txs);
                &&& txs.len() == num_txs
                &&& forall|i: int|
                    0 <= i < num_txs ==> #[trigger] is_sim_tx(
                        txs[i],
                        i,
                        byzantine@[i % (byzantine@.len() as int)],
                    )
                &&& views(final(states)@) == run.0
                &&& final(metrics).txs_processed == old(metrics).txs_processed + run.1
                &&& final(metrics).txs_failed == old(metrics).txs_failed + run.2
                &&& final(metrics).byzantine_detected == old(metrics).byzantine_detected + run.3
            },
        forall|a: int| #![trigger final(states)@[a]]
            0 <= a < final(states)@.len() ==> {
                &&& final(states)@[a]@.current_block == old(states)@[a]@.current_block
                &&& final(states)@[a]@.current_epoch == old(states)@[a]@.current_epoch
                &&& final(states)@[a]@.mempool == old(states)@[a]@.mempool
                &&& final(states)@[a]@.epochs.dom() == old(states)@[a]@.epochs.dom()
            },
        forall|a: int, k: u64|
            0 <= a < final(states)@.len() && #[trigger] old(states)@[a]@.epochs.contains_key(k)
                ==> old(states)@[a]@.epochs[k].spent.subset_of(
                #[trigger] final(states)@[a]@.epochs[k].spent,
            ),
        final(metrics).txs_processed + final(metrics).txs_failed == old(metrics).txs_processed
            + old(metrics).txs_failed + honest_txs(byzantine@, num_txs as nat),
        final(metrics).blocks_proposed == old(metrics).blocks_proposed,
        final(metrics).consensus_rounds == old(metrics).consensus_rounds,
        final(metrics).fpga_proofs == old(metrics).fpga_proofs,
        final(metrics).fpga_energy_mj == old(metrics).fpga_energy_mj,
        final(metrics).da_blobs_submitted == old(metrics).da_blobs_submitted,
        final(metrics).da_blobs_failed == old(metrics).da_blobs_failed,
        final(metrics).partition_healed == old(metrics).partition_healed,
        final(metrics).total_duration_ms == old(metrics).total_duration_ms,
{
    let n = states.len();
    let ghost s0 = states@;
    let ghost v0 = views(s0);
    let ghost m0 = *metrics;
    let ghost mut txs: Seq<Transaction> = Seq::empty();
    let mut i: usize = 0;
    while i < num_txs
        invariant
            0 <= i <= num_txs,
            n == states@.len(),
            n == byzantine@.len(),
            n == s0.len(),
            v0 == views(s0),
            num_txs > 0 ==> n > 0,
            txs.len() == i,
            forall|j: int|
                0 <= j < i ==> #[trigger] is_sim_tx(txs[j], j, byzantine@[j % (n as int)]),
            views(states@) == sim_run(v0, byzantine@, txs).0,
            metrics.txs_processed == m0.txs_processed + sim_run(v0, byzantine@, txs).1,
            metrics.txs_failed == m0.txs_failed + sim_run(v0, byzantine@, txs).2,
            metrics.byzantine_detected == m0.byzantine_detected + sim_run(v0, byzantine@, txs).3,
            forall|a: int| 0 <= a < states@.len() ==> #[trigger] states@[a].well_formed(),
            forall|a: int| #![trigger states@[a]]
                0 <= a < states@.len() ==> {
                    &&& states@[a]@.current_block == s0[a]@.current_block
                    &&& states@[a]@.current_epoch == s0[a]@.current_epoch
                    &&& states@[a]@.mempool == s0[a]@.mempool
                    &&& states@[a]@.epochs.dom() == s0[a]@.epochs.dom()
                },
            forall|a: int, k: u64|
                0 <= a < states@.len() && #[trigger] s0[a]@.epochs.contains_key(k)
                    ==> s0[a]@.epochs[k].spent.subset_of(#[trigger] states@[a]@.epochs[k].spent),
            0 <= honest_txs(byzantine@, i as nat) <= i,
            metrics.txs_processed + metrics.txs_failed == m0.txs_processed + m0.txs_failed
                + honest_txs(byzantine@, i as nat),
            m0.txs_processed <= metrics.txs_processed <= m0.txs_processed + i,
            m0.txs_failed <= metrics.txs_failed <= m0.txs_failed + i,
            m0.byzantine_detected <= metrics.byzantine_detected <= m0.byzantine_detected + i
                - honest_txs(byzantine@, i as nat),
            m0.txs_processed + num_txs <= u64::MAX,
            m0.txs_failed + num_txs <= u64::MAX,
            m0.byzantine_detected + num_txs <= u64::MAX,
            metrics.blocks_proposed == m0.blocks_proposed,
            metrics.consensus_rounds == m0.consensus_rounds,
            metrics.fpga_proofs == m0.fpga_proofs,
            metrics.fpga_energy_mj == m0.fpga_energy_mj,
            metrics.da_blobs_submitted == m0.da_blobs_submitted,
            metrics.da_blobs_failed == m0.da_blobs_failed,
            metrics.partition_healed == m0.partition_healed,
            metrics.total_duration_ms == m0.total_duration_ms,
        decreases num_txs - i,
    {
        let k = i % n;
        let byz = byzantine[k];
        let ghost before = states@;
        let ghost prev = sim_run(v0, byzantine@, txs);
        let mut st = UtxoState::new();
        states.set_and_swap(k, &mut st);
        let ghost st0 = st;
        let tx = sim_tx_step(i, byz, &mut st, metrics);
        let ghost st1 = st;
        states.set_and_swap(k, &mut st);
        proof {
            assert(states@ =~= before.update(k as int, st1));
            assert(before[k as int] == st0);
            assert(views(before)[k as int] == st0@);
            assert(views(states@) =~= views(before).update(k as int, st1@));
            let txs1 = txs.push(tx);
            assert(txs1.drop_last() =~= txs);
            assert(txs1.last() == tx);
            assert((txs1.len() - 1) % (n as int) == k as int);
            assert(views(states@) == sim_run(v0, byzantine@, txs1).0);
            assert forall|j: int| 0 <= j < i + 1 implies #[trigger] is_sim_tx(
                txs1[j],
                j,
                byzantine@[j % (n as int)],
            ) by {
                if j < i {
                    assert(txs1[j] == txs[j]);
                } else {
                    assert(txs1[j] == tx);
                }
            }
            assert forall|kk: u64| #[trigger] s0[k as int]@.epochs.contains_key(kk) implies s0[k
                as int]@.epochs[kk].spent.subset_of(states@[k as int]@.epochs[kk].spent) by {
                assert(st0@.epochs.contains_key(kk));
                crate::utxo::lemma_apply_tx_keeps_spent(st0@, tx, kk);
            }
            if st0@.epochs.contains_key(st0@.current_epoch) {
                crate::utxo::lemma_apply_tx_keeps_spent(st0@, tx, st0@.current_epoch);
            }
            assert(honest_txs(byzantine@, (i + 1) as nat) == honest_txs(byzantine@, i as nat) + if byz {
                0int
            } else {
                1int
            });
            txs = txs1;
        }
        i = i + 1;
    }
    proof {
        let run = sim_run(views(s0), byzantine@, txs);
        assert(views(states@) == run.0);
    }
}

} // verus!
