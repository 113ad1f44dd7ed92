use qrap::crypto::LweCommitment;
use qrap::sim::{consensus_rounds, generate_transactions, sim_transaction, SimMetrics};
use qrap::utxo::UtxoState;

#[test]
fn metrics_count_by_outcome() {
    let mut m = SimMetrics::default();
    m.record_tx(true, false);
    m.record_tx(false, false);
    m.record_tx(false, true);
    m.record_tx(true, true);
    assert_eq!(m.txs_processed, 1);
    assert_eq!(m.txs_failed, 1);
    assert_eq!(m.byzantine_detected, 1);
    assert_eq!(m.blocks_proposed, 0);
}

#[test]
fn rounds_per_run() {
    assert_eq!(consensus_rounds(15, 1000), 15);
    assert_eq!(consensus_rounds(60, 6000), 10);
    assert_eq!(consensus_rounds(10, 3000), 3);
}

#[test]
fn byzantine_agents_replay_one_nullifier() {
    let mut state = UtxoState::new();
    let c = LweCommitment { a: vec![1], b: vec![2] };
    let t1 = sim_transaction(3, true, c.clone());
    let t2 = sim_transaction(4, true, c.clone());
    assert_eq!(t1.inputs[0].nullifier, [0xFF; 32]);
    assert_eq!(t1.outputs[0].value, 999);
    assert_eq!(t1.fee, 0);
    assert!(state.apply_tx(&t1).is_ok());
    assert!(state.apply_tx(&t2).is_err());
    let honest = sim_transaction(300, false, c);
    assert_eq!(honest.inputs[0].nullifier, [44u8; 32]);
    assert_eq!(honest.outputs[0].value, 100);
    assert_eq!(honest.fee, 1);
    assert_eq!(honest.nonce, 300);
}

#[test]
fn transactions_go_round_robin_and_are_all_counted() {
    let mut states = vec![UtxoState::new(), UtxoState::new(), UtxoState::new()];
    let byzantine = vec![false, true, false];
    let mut m = SimMetrics::default();
    generate_transactions(&mut states, &byzantine, 9, &mut m);
    // agents 0 and 2 get three honest transactions each, with distinct nullifiers
    assert_eq!(m.txs_processed, 6);
    assert_eq!(m.txs_failed, 0);
    // agent 1 replays one nullifier: the first is accepted, the other two detected
    assert_eq!(m.byzantine_detected, 2);
    assert_eq!(m.blocks_proposed, 0);
    for s in &states {
        assert_eq!(s.current_block, 0);
        assert_eq!(s.current_epoch, 0);
    }
    assert_eq!(states[0].epoch(0).unwrap().spent_nullifiers.len(), 3);
    assert_eq!(states[1].epoch(0).unwrap().spent_nullifiers.len(), 1);
}

#[test]
fn no_transactions_no_agents() {
    let mut states: Vec<UtxoState> = Vec::new();
    let byzantine: Vec<bool> = Vec::new();
    let mut m = SimMetrics::default();
    generate_transactions(&mut states, &byzantine, 0, &mut m);
    assert_eq!(m.txs_processed + m.txs_failed + m.byzantine_detected, 0);
}

#[test]
fn repeated_nullifiers_are_refused_and_counted_exactly() {
    // two honest agents; agent 0 gets the even transactions, agent 1 the odd
    // ones; nullifier i mod 256 comes back after 256 transactions
    let mut states = vec![UtxoState::new(), UtxoState::new()];
    let byzantine = vec![false, false];
    let mut m = SimMetrics::default();
    generate_transactions(&mut states, &byzantine, 512, &mut m);
    assert_eq!(m.txs_processed, 256);
    assert_eq!(m.txs_failed, 256);
    assert_eq!(m.byzantine_detected, 0);
    assert_eq!(states[0].epoch(0).unwrap().spent_nullifiers.len(), 128);
    assert_eq!(states[1].epoch(0).unwrap().spent_nullifiers.len(), 128);
    assert_eq!(states[0].epoch(0).unwrap().utxo_commitments.len(), 128);
}
