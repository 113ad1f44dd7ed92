use qrap::fee::{Distribution, FeeError, FeeSplitter, ProverInfo, ValidatorInfo};

#[test]
fn test_default_distribution() {
    let splitter = FeeSplitter::new();
    splitter.validate().unwrap();
    assert_eq!(splitter.distribution.get(&Distribution::Provers), Some(&35));
    assert_eq!(splitter.distribution.get(&Distribution::Burn), Some(&5));
}

#[test]
fn test_fee_split_basic() {
    let splitter = FeeSplitter::new();
    let provers = vec![
        ProverInfo { id: "p1".to_string(), is_fpga: true, proofs_generated: 100, uptime_secs: 3600 },
        ProverInfo { id: "p2".to_string(), is_fpga: false, proofs_generated: 50, uptime_secs: 3600 },
    ];
    let validators = vec![ValidatorInfo {
        id: "v1".to_string(),
        stake: 1000,
        uptime_secs: 3600,
        blocks_proposed: 10,
    }];

    let split = splitter.split(10000, &provers, &validators).unwrap();
    assert_eq!(split.total_amount, 10000);
    assert_eq!(split.provers, 3500 + split.prover_bonus);
    assert_eq!(split.validators, 2500);
    assert_eq!(split.treasury, 2000);
    assert_eq!(split.da, 1500);
    assert!(split.burn <= 500);
    assert!(split.prover_bonus > 0);
}

#[test]
fn test_fpga_bonus_calculation() {
    let splitter = FeeSplitter::new();
    let provers = vec![
        ProverInfo { id: "fpga1".to_string(), is_fpga: true, proofs_generated: 1000, uptime_secs: 86400 },
        ProverInfo { id: "cpu1".to_string(), is_fpga: false, proofs_generated: 100, uptime_secs: 86400 },
    ];
    let validators = vec![];

    let split = splitter.split(100000, &provers, &validators).unwrap();
    assert!(split.prover_bonus > 0);
    assert_eq!(split.provers, 35000 + split.prover_bonus);
}

#[test]
fn test_governance_timelock() {
    let mut splitter = FeeSplitter::new();
    let mut new_dist = splitter.distribution.clone();
    new_dist.insert(Distribution::Provers, 36);
    new_dist.insert(Distribution::Validators, 24);

    let result = splitter.propose_change(new_dist.clone(), 1);
    assert!(matches!(result, Err(FeeError::TimelockActive(_))));
}

#[test]
fn test_governance_max_change() {
    let mut splitter = FeeSplitter::new();
    let mut new_dist = splitter.distribution.clone();
    new_dist.insert(Distribution::Provers, 50);

    let result = splitter.propose_change(new_dist, 201600);
    assert!(matches!(result, Err(FeeError::ChangeTooLarge(15, 5))));
}

#[test]
fn test_treasury_multisig() {
    let splitter = FeeSplitter::new();
    assert!(splitter.check_treasury_sig(3).is_ok());
    assert!(splitter.check_treasury_sig(5).is_ok());
    assert!(matches!(splitter.check_treasury_sig(2), Err(FeeError::MultiSigRequired(2, 3))));
}

#[test]
fn test_invalid_distribution() {
    let mut splitter = FeeSplitter::new();
    splitter.distribution.insert(Distribution::Provers, 50);
    assert!(matches!(splitter.validate(), Err(FeeError::InvalidDistribution(_))));
}

#[test]
fn accepted_change_moves_the_timelock() {
    let mut splitter = FeeSplitter::new();
    let mut new_dist = splitter.distribution.clone();
    new_dist.insert(Distribution::Provers, 36);
    new_dist.insert(Distribution::Validators, 24);
    assert!(splitter.propose_change(new_dist.clone(), 201600).is_ok());
    assert_eq!(splitter.distribution.get(&Distribution::Provers), Some(&36));
    assert_eq!(splitter.governance.last_change_epoch, 201600);
    // the next change waits for the timelock again
    assert!(matches!(splitter.propose_change(new_dist, 201601), Err(FeeError::TimelockActive(_))));
    splitter.advance_epoch();
    assert_eq!(splitter.current_epoch, 201601);
}

#[test]
fn split_fits_exactly_when_the_arithmetic_stays_in_range() {
    let splitter = FeeSplitter::new();
    let provers = vec![
        ProverInfo { id: "p1".to_string(), is_fpga: true, proofs_generated: 100, uptime_secs: 3600 },
        ProverInfo { id: "p2".to_string(), is_fpga: false, proofs_generated: 50, uptime_secs: 3600 },
    ];
    let validators = vec![ValidatorInfo {
        id: "v1".to_string(),
        stake: 1000,
        uptime_secs: 3600,
        blocks_proposed: 10,
    }];
    assert!(splitter.split_fits_exec(10000, &provers, &validators));
    // 35% of the largest amount does not fit in 64 bits
    assert!(!splitter.split_fits_exec(u64::MAX, &provers, &validators));
    // proof counts whose sum overflows
    let many = vec![
        ProverInfo { id: "a".to_string(), is_fpga: true, proofs_generated: u64::MAX, uptime_secs: 1 },
        ProverInfo { id: "b".to_string(), is_fpga: true, proofs_generated: 1, uptime_secs: 1 },
    ];
    assert!(!splitter.split_fits_exec(10000, &many, &validators));
    // validator weights whose sum overflows 128 bits
    let heavy = vec![
        ValidatorInfo { id: "x".to_string(), stake: u64::MAX, uptime_secs: u64::MAX, blocks_proposed: 0 },
        ValidatorInfo { id: "y".to_string(), stake: u64::MAX, uptime_secs: u64::MAX, blocks_proposed: 0 },
        ValidatorInfo { id: "z".to_string(), stake: u64::MAX, uptime_secs: u64::MAX, blocks_proposed: 0 },
    ];
    assert!(!splitter.split_fits_exec(10000, &provers, &heavy));
    // the largest amount whose shares still fit
    let limit = u64::MAX / 35;
    assert!(splitter.split_fits_exec(limit / 100, &provers, &validators));
}
