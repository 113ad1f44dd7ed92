use qrap::crypto::{poseidon256, LweCommitment};
use qrap::utxo::{
    EpochState, Transaction, TxInput, TxOutput, UtxoError, UtxoState, EPOCH_LENGTH,
};

fn tx_spending(nullifiers: &[[u8; 32]], nonce: u64) -> Transaction {
    Transaction {
        inputs: nullifiers
            .iter()
            .map(|n| TxInput { nullifier: *n, spend_proof: vec![] })
            .collect(),
        outputs: vec![TxOutput { commitment: LweCommitment { a: vec![1, 2], b: vec![3] }, value: 100 }],
        fee: 1,
        nonce,
    }
}

#[test]
fn test_utxo_spend() {
    let mut state = UtxoState::new();
    let nf = [0x01; 32];
    let tx = Transaction {
        inputs: vec![TxInput { nullifier: nf, spend_proof: vec![] }],
        outputs: vec![TxOutput { commitment: LweCommitment::new_random(), value: 100 }],
        fee: 1,
        nonce: 1,
    };
    assert!(state.apply_tx(&tx).is_ok());
    assert!(state.apply_tx(&tx).is_err());
}

#[test]
fn test_epoch_rollover() {
    let mut state = UtxoState::new();
    for _ in 0..EPOCH_LENGTH + 1 {
        state.advance_block();
    }
    assert_eq!(state.current_epoch, 1);
}

#[test]
fn replayed_transaction_is_a_double_spend() {
    let mut state = UtxoState::new();
    let tx = tx_spending(&[[7; 32], [8; 32]], 1);
    assert!(state.apply_tx(&tx).is_ok());
    assert!(matches!(state.apply_tx(&tx), Err(UtxoError::DoubleSpend)));
    let epoch = state.epoch(0).unwrap();
    assert_eq!(epoch.spent_nullifiers.len(), 2);
    assert_eq!(epoch.utxo_commitments.len(), 1);
}

#[test]
fn refused_spend_keeps_earlier_inputs_spent() {
    let mut state = UtxoState::new();
    assert!(state.apply_tx(&tx_spending(&[[2; 32]], 1)).is_ok());
    // the first input is fresh, the second was spent: the first stays spent,
    // no output is recorded
    let r = state.apply_tx(&tx_spending(&[[3; 32], [2; 32]], 2));
    assert!(matches!(r, Err(UtxoError::DoubleSpend)));
    let epoch = state.epoch(0).unwrap();
    assert_eq!(epoch.spent_nullifiers, vec![[2; 32], [3; 32]]);
    assert_eq!(epoch.utxo_commitments.len(), 1);
    assert!(epoch.nullifier_tree.get(&[3; 32]).is_some());
}

#[test]
fn same_nullifier_twice_in_one_transaction_is_refused() {
    let mut state = UtxoState::new();
    let r = state.apply_tx(&tx_spending(&[[9; 32], [9; 32]], 1));
    assert!(matches!(r, Err(UtxoError::DoubleSpend)));
    assert_eq!(state.epoch(0).unwrap().spent_nullifiers.len(), 1);
}

#[test]
fn missing_epoch_is_an_epoch_mismatch() {
    let mut state = UtxoState::new();
    state.epochs.clear();
    let r = state.apply_tx(&tx_spending(&[[1; 32]], 1));
    assert!(matches!(r, Err(UtxoError::EpochMismatch)));
}

#[test]
fn output_commitment_hashes_are_recorded() {
    let mut state = UtxoState::new();
    let tx = tx_spending(&[[4; 32]], 1);
    state.apply_tx(&tx).unwrap();
    let expected = tx.outputs[0].commitment.hash();
    assert_eq!(state.epoch(0).unwrap().utxo_commitments, vec![expected]);
}

#[test]
fn old_epochs_are_pruned() {
    let mut state = UtxoState::new();
    for _ in 0..4 * EPOCH_LENGTH {
        state.advance_block();
    }
    assert_eq!(state.current_block, 400);
    assert_eq!(state.current_epoch, 4);
    let mut kept: Vec<u64> = state.epochs.keys().copied().collect();
    kept.sort();
    assert_eq!(kept, vec![1, 2, 3, 4]);
    assert!(state.epoch(0).is_none());
}

#[test]
fn epoch_root_depends_only_on_spent_set() {
    let mut a = EpochState::new(0);
    let mut b = EpochState::new(0);
    a.spend(&[1; 32]).unwrap();
    a.spend(&[2; 32]).unwrap();
    b.spend(&[2; 32]).unwrap();
    b.spend(&[1; 32]).unwrap();
    assert_eq!(a.root(), b.root());
    assert!(matches!(a.spend(&[1; 32]), Err(UtxoError::DoubleSpend)));
    let empty = EpochState::new(0);
    assert_eq!(empty.root(), [0u8; 32]);
    let mut one = EpochState::new(0);
    one.spend(&[5; 32]).unwrap();
    assert_eq!(one.root(), [5; 32]);
}

#[test]
fn transaction_encoding_matches_bincode() {
    let tx = Transaction {
        inputs: vec![TxInput { nullifier: [0xAB; 32], spend_proof: vec![1, 2, 3] }],
        outputs: vec![TxOutput { commitment: LweCommitment { a: vec![5, 6], b: vec![7] }, value: 50 }],
        fee: 9,
        nonce: 2,
    };
    let shape = (
        vec![([0xABu8; 32], vec![1u8, 2, 3])],
        vec![((vec![5u64, 6], vec![7u64]), 50u64)],
        9u64,
        2u64,
    );
    let expected = bincode::serialize(&shape).unwrap();
    assert_eq!(tx.encode(), expected);
    assert_eq!(tx.hash(), poseidon256(&expected));
}

#[test]
fn mempool_and_block_application() {
    let mut state = UtxoState::new();
    let tx = tx_spending(&[[6; 32]], 1);
    state.add_to_mempool(tx.clone());
    assert_eq!(state.mempool.len(), 1);
    state.apply_block(&vec![tx.clone(), tx]);
    assert!(state.mempool.is_empty());
    assert_eq!(state.current_block, 1);
    assert_eq!(state.epoch(0).unwrap().spent_nullifiers, vec![[6; 32]]);
}

#[test]
fn at_most_four_epochs_are_kept_over_many_blocks() {
    let mut state = UtxoState::new();
    for b in 1..=1000u64 {
        let epoch_before = state.current_epoch;
        state.advance_block();
        assert_eq!(state.current_block, b);
        assert!(state.epochs.len() <= 4);
        assert!(state.epochs.contains_key(&state.current_epoch));
        if state.current_epoch != epoch_before {
            assert_eq!(state.current_epoch, epoch_before + 1);
            let fresh = state.epoch(state.current_epoch).unwrap();
            assert!(fresh.spent_nullifiers.is_empty());
            assert!(fresh.utxo_commitments.is_empty());
        }
    }
    assert_eq!(state.current_epoch, 10);
    assert_eq!(state.epochs.len(), 4);
}
