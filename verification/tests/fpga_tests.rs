use qrap::crypto::poseidon256_pair;
use qrap::fpga::{
    power_state_from_name, proof_hash, tmr_round, CheckpointLog, PlonkInput, PowerState, TmrVoter,
};

#[test]
fn test_tmr_voting() {
    let mut v = TmrVoter::new();
    v.set(0, [1u8; 32]);
    v.set(1, [1u8; 32]);
    v.set(2, [2u8; 32]);
    assert_eq!(v.vote().unwrap(), [1u8; 32]);
}

#[test]
fn test_tmr_fault() {
    let mut v = TmrVoter::new();
    v.set(0, [1u8; 32]);
    v.set(1, [2u8; 32]);
    v.set(2, [3u8; 32]);
    assert!(v.is_faulty());
    assert!(v.vote().is_none());
}

#[test]
fn test_checkpoint() {
    let mut s = CheckpointLog::new();
    s.create_checkpoint(1, 100, [0xAB; 32], 0);
    s.create_checkpoint(2, 200, [0xCD; 32], 0);
    let cp = s.restore_checkpoint().unwrap();
    assert_eq!(cp.epoch, 2);
    assert_eq!(cp.block, 200);
}

#[test]
fn power_state_watts() {
    assert_eq!(PowerState::Eco.power_watts(), 25);
    assert_eq!(PowerState::Balanced.power_watts(), 45);
    assert_eq!(PowerState::Full.power_watts(), 67);
    assert_eq!(PowerState::default(), PowerState::Full);
}

#[test]
fn power_state_targets_and_names() {
    assert_eq!(PowerState::Full.target_time(), std::time::Duration::from_millis(1600));
    assert_eq!(PowerState::Balanced.target_millis(), 2200);
    assert_eq!(PowerState::Eco.target_time(), std::time::Duration::from_millis(4000));
    assert_eq!(power_state_from_name("eco"), PowerState::Eco);
    assert_eq!(power_state_from_name("balanced"), PowerState::Balanced);
    assert_eq!(power_state_from_name("full"), PowerState::Full);
    assert_eq!(power_state_from_name("Eco"), PowerState::Full);
}

#[test]
fn tmr_voter_edge_cases() {
    let mut v = TmrVoter::new();
    assert!(v.vote().is_none());
    assert!(!v.is_faulty());
    v.set(1, [4u8; 32]);
    assert!(v.vote().is_none());
    assert!(v.is_faulty());
    v.set(7, [4u8; 32]);
    assert!(v.vote().is_none());
    v.set(2, [4u8; 32]);
    assert_eq!(v.vote(), Some([4u8; 32]));
    assert_eq!(v.mismatches(&[4u8; 32]), 0);
    v.set(0, [5u8; 32]);
    assert_eq!(v.vote(), Some([4u8; 32]));
    assert_eq!(v.mismatches(&[4u8; 32]), 1);
}

fn sample_input() -> PlonkInput {
    PlonkInput {
        nullifiers: vec![[0x01; 32], [0x02; 32]],
        commitments: vec![[0x03; 32]],
        public_inputs: vec![100, 50],
    }
}

#[test]
fn proof_hash_chains_nullifiers_then_commitments() {
    let input = sample_input();
    let mut h = [0u8; 32];
    h = poseidon256_pair(&h, &[0x01; 32]);
    h = poseidon256_pair(&h, &[0x02; 32]);
    h = poseidon256_pair(&h, &[0x03; 32]);
    assert_eq!(proof_hash(&input), h);
    let empty = PlonkInput { nullifiers: vec![], commitments: vec![], public_inputs: vec![] };
    assert_eq!(proof_hash(&empty), [0u8; 32]);
}

#[test]
fn tmr_round_corrects_injected_fault() {
    let input = sample_input();
    let mut voter = TmrVoter::new();
    let (h, mismatches) = tmr_round(&mut voter, &input, true).unwrap();
    assert_eq!(h, proof_hash(&input));
    assert_eq!(mismatches, 1);
    let mut clean = TmrVoter::new();
    let (h2, m2) = tmr_round(&mut clean, &input, false).unwrap();
    assert_eq!(h2, h);
    assert_eq!(m2, 0);
}

#[test]
fn checkpoint_log_keeps_the_last_ten() {
    let mut log = CheckpointLog::new();
    assert!(log.restore_checkpoint().is_none());
    for i in 0..12u64 {
        log.create_checkpoint(i, i * 10, [i as u8; 32], i);
    }
    assert_eq!(log.checkpoints.len(), 10);
    assert_eq!(log.checkpoints[0].epoch, 2);
    assert_eq!(log.restore_checkpoint().unwrap().epoch, 11);
}
