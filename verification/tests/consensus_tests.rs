use qrap::consensus::{
    encode_transactions, quorum, Block, BlockHeader, ConsensusMsg, ConsensusStep, RoundState,
};
use qrap::crypto::{poseidon256, LweCommitment};
use qrap::net::derive_node_id;
use qrap::utxo::{Transaction, TxInput, TxOutput, UtxoState};

#[test]
fn test_quorum() {
    assert_eq!(quorum(4), 3);
    assert_eq!(quorum(7), 5);
}

#[test]
fn test_block_hash() {
    let header = BlockHeader {
        height: 1,
        timestamp: 0,
        prev_hash: [0u8; 32],
        tx_root: [0u8; 32],
        state_root: [0u8; 32],
        proposer: [0u8; 32],
    };
    let block = Block { header, transactions: vec![] };
    let h = block.hash();
    assert_eq!(h.len(), 32);
}

#[test]
fn block_hash_is_hash_of_header_bytes() {
    let header = BlockHeader {
        height: 7,
        timestamp: -5,
        prev_hash: [1u8; 32],
        tx_root: [2u8; 32],
        state_root: [3u8; 32],
        proposer: [4u8; 32],
    };
    let shape = (7u64, -5i64, [1u8; 32], [2u8; 32], [3u8; 32], [4u8; 32]);
    let expected = bincode::serialize(&shape).unwrap();
    assert_eq!(header.encode(), expected);
    let block = Block { header, transactions: vec![] };
    assert_eq!(block.hash(), poseidon256(&expected));
}

#[test]
fn quorum_values() {
    assert_eq!(quorum(1), 1);
    assert_eq!(quorum(3), 3);
    assert_eq!(quorum(10), 7);
    // n = 3f + 1 gives 2f + 1
    assert_eq!(quorum(13), 9);
}

fn prepare(h: u64, bh: [u8; 32], v: u8) -> ConsensusMsg {
    ConsensusMsg::Prepare { height: h, round: 0, block_hash: bh, validator: derive_node_id(v), signature: vec![] }
}

fn commit(h: u64, bh: [u8; 32], v: u8) -> ConsensusMsg {
    ConsensusMsg::Commit { height: h, round: 0, block_hash: bh, validator: derive_node_id(v), signature: vec![] }
}

#[test]
fn round_runs_to_decision() {
    let validators: Vec<[u8; 32]> = (0..4).map(derive_node_id).collect();
    let me = validators[0];
    let mut state = RoundState::default();
    let mut utxo = UtxoState::new();

    // height 0, round 0: node 0 proposes
    assert!(state.on_timeout(&validators, &me));
    assert_eq!(state.step, ConsensusStep::Propose);
    let tx = Transaction {
        inputs: vec![TxInput { nullifier: [0x42; 32], spend_proof: vec![] }],
        outputs: vec![TxOutput { commitment: LweCommitment { a: vec![1], b: vec![2] }, value: 10 }],
        fee: 1,
        nonce: 0,
    };
    utxo.add_to_mempool(tx.clone());
    let proposal = state.propose_block(0, 0, &me, vec![tx.clone()], 100, 101);
    let bh = match &proposal {
        ConsensusMsg::Propose { block_hash, timestamp, proposer, .. } => {
            assert_eq!(*timestamp, 101);
            assert_eq!(*proposer, me);
            *block_hash
        }
        _ => panic!("expected a proposal"),
    };
    assert_eq!(state.proposals.len(), 1);
    let block = &state.proposals[0].1;
    assert_eq!(block.header.tx_root, poseidon256(&encode_transactions(&vec![tx.clone()])));
    assert_eq!(block.hash(), bh);

    // the proposal comes back: lock and prepare
    let reply = state.handle_consensus_msg(&mut utxo, 4, &me, proposal);
    assert!(matches!(reply, Some(ConsensusMsg::Prepare { .. })));
    assert_eq!(state.step, ConsensusStep::Prepare);
    assert_eq!(state.locked_block, Some(bh));

    // prepares: the third distinct one reaches the quorum
    assert!(state.handle_consensus_msg(&mut utxo, 4, &me, prepare(0, bh, 0)).is_none());
    assert!(state.handle_consensus_msg(&mut utxo, 4, &me, prepare(0, bh, 0)).is_none());
    assert!(state.handle_consensus_msg(&mut utxo, 4, &me, prepare(0, bh, 1)).is_none());
    let c = state.handle_consensus_msg(&mut utxo, 4, &me, prepare(0, bh, 2));
    assert!(matches!(c, Some(ConsensusMsg::Commit { validator, .. }) if validator == me));
    assert_eq!(state.step, ConsensusStep::Commit);

    // commits: the third distinct one decides the block
    assert!(state.handle_consensus_msg(&mut utxo, 4, &me, commit(0, bh, 1)).is_none());
    assert!(state.handle_consensus_msg(&mut utxo, 4, &me, commit(0, bh, 1)).is_none());
    assert_eq!(state.height, 0);
    assert!(state.handle_consensus_msg(&mut utxo, 4, &me, commit(0, bh, 2)).is_none());
    assert_eq!(state.height, 0);
    assert!(state.handle_consensus_msg(&mut utxo, 4, &me, commit(0, bh, 3)).is_none());
    assert_eq!(state.height, 1);
    assert_eq!(state.round, 0);
    assert_eq!(state.step, ConsensusStep::NewHeight);
    assert!(state.proposals.is_empty());
    assert_eq!(utxo.current_block, 1);
    assert!(utxo.mempool.is_empty());
    assert_eq!(utxo.epoch(0).unwrap().spent_nullifiers, vec![[0x42; 32]]);
}

#[test]
fn only_the_round_robin_proposer_proposes() {
    let validators: Vec<[u8; 32]> = (0..4).map(derive_node_id).collect();
    let mut state = RoundState::default();
    state.height = 1;
    state.round = 1;
    // (1 + 1) mod 4 = 2
    assert!(!state.on_timeout(&validators, &validators[0]));
    assert_eq!(state.step, ConsensusStep::NewHeight);
    assert!(state.on_timeout(&validators, &validators[2]));
    assert_eq!(state.step, ConsensusStep::Propose);
    // not at new-height any more: no second proposal
    assert!(!state.on_timeout(&validators, &validators[2]));
}

#[test]
fn decide_and_late_proposals_change_nothing() {
    let me = derive_node_id(0);
    let mut state = RoundState::default();
    let mut utxo = UtxoState::new();
    state.step = ConsensusStep::Commit;
    let msg = ConsensusMsg::Propose { height: 0, round: 0, block_hash: [1; 32], proposer: me, timestamp: 0 };
    assert!(state.handle_consensus_msg(&mut utxo, 4, &me, msg).is_none());
    assert_eq!(state.step, ConsensusStep::Commit);
    let d = ConsensusMsg::Decide { height: 0, block_hash: [1; 32], qc: vec![] };
    assert!(state.handle_consensus_msg(&mut utxo, 4, &me, d).is_none());
    assert_eq!(state.step, ConsensusStep::Commit);
    assert_eq!(state.height, 0);
}

#[test]
fn prepare_quorum_outside_the_prepare_step_does_not_reach_commit() {
    let me = derive_node_id(0);
    let mut state = RoundState::default();
    let mut utxo = UtxoState::new();
    let bh = [7u8; 32];
    // at new-height a full quorum of prepares is recorded but the step stays
    for v in 0..4u8 {
        assert!(state.handle_consensus_msg(&mut utxo, 4, &me, prepare(0, bh, v)).is_none());
    }
    assert_eq!(state.step, ConsensusStep::NewHeight);
    // commits at new-height do not move the height either
    for v in 0..4u8 {
        assert!(state.handle_consensus_msg(&mut utxo, 4, &me, commit(0, bh, v)).is_none());
    }
    assert_eq!(state.step, ConsensusStep::NewHeight);
    assert_eq!(state.height, 0);
    assert_eq!(utxo.current_block, 0);
}

#[test]
fn two_nodes_seeing_the_same_commit_quorum_decide_the_same_height() {
    let bh = [9u8; 32];
    let mut heights = Vec::new();
    for local in 0..2u8 {
        let me = derive_node_id(local);
        let mut state = RoundState::default();
        state.step = ConsensusStep::Commit;
        let mut utxo = UtxoState::new();
        for v in [1u8, 2, 3] {
            state.handle_consensus_msg(&mut utxo, 4, &me, commit(0, bh, v));
        }
        heights.push(state.height);
    }
    assert_eq!(heights, vec![1, 1]);
}
