//! Protocol revenue distribution: provers 35% (+ FPGA bonus), validators 25%,
//! treasury 20% (multi-sig), data availability 15%, burn 5%; governance
//! changes behind a timelock and a per-epoch cap.
use vstd::prelude::*;

verus! {

/// Distribution categories.
#[derive(Clone, Copy, Debug, PartialEq, Eq, Hash, Structural)]
pub enum Distribution {
    Provers,
    Validators,
    Treasury,
    DataAvailability,
    Burn,
}

impl Distribution {
    /// Base percentage of a category.
    pub open spec fn spec_base_percentage(self) -> u16 {
        match self {
            Distribution::Provers => 35,
            Distribution::Validators => 25,
            Distribution::Treasury => 20,
            Distribution::DataAvailability => 15,
            Distribution::Burn => 5,
        }
    }

    /// Default share of the category, in percent.
    pub fn base_percentage(&self) -> (p: u16)
        ensures
            p == self.spec_base_percentage(),
    {
        match self {
            Distribution::Provers => 35,
            Distribution::Validators => 25,
            Distribution::Treasury => 20,
            Distribution::DataAvailability => 15,
            Distribution::Burn => 5,
        }
    }
}

/// Percentage per category; a category may be absent.
#[derive(Clone, Copy, Debug, PartialEq, Eq)]
pub struct DistributionMap {
    provers: Option<u16>,
    validators: Option<u16>,
    treasury: Option<u16>,
    data_availability: Option<u16>,
    burn: Option<u16>,
}

/// The percentage held, 0 when absent.
pub open spec fn opt_val(o: Option<u16>) -> int {
    match o {
        Some(v) => v as int,
        None => 0,
    }
}

impl DistributionMap {
    /// The percentage stored for `d`, if any.
    pub closed spec fn spec_get(self, d: Distribution) -> Option<u16> {
        match d {
            Distribution::Provers => self.provers,
            Distribution::Validators => self.validators,
            Distribution::Treasury => self.treasury,
            Distribution::DataAvailability => self.data_availability,
            Distribution::Burn => self.burn,
        }
    }

    /// Sum of the stored percentages.
    pub open spec fn total(self) -> int {
        opt_val(self.spec_get(Distribution::Provers)) + opt_val(self.spec_get(Distribution::Validators))
            + opt_val(self.spec_get(Distribution::Treasury)) + opt_val(
            self.spec_get(Distribution::DataAvailability),
        ) + opt_val(self.spec_get(Distribution::Burn))
    }

    /// An empty table.
    pub fn new() -> (m: Self)
        ensures
            forall|d: Distribution| #[trigger] m.spec_get(d) is None,
    {
        DistributionMap {
            provers: None,
            validators: None,
            treasury: None,
            data_availability: None,
            burn: None,
        }
    }

    /// The percentage stored for `d`, if any.
    pub fn get(&self, d: &Distribution) -> (r: Option<&u16>)
        ensures
            r is Some == self.spec_get(*d) is Some,
            r is Some ==> *r.unwrap() == self.spec_get(*d).unwrap(),
    {
        match d {
            Distribution::Provers => self.provers.as_ref(),
            Distribution::Validators => self.validators.as_ref(),
            Distribution::Treasury => self.treasury.as_ref(),
            Distribution::DataAvailability => self.data_availability.as_ref(),
            Distribution::Burn => self.burn.as_ref(),
        }
    }

    /// The percentage stored for `d`, copied out.
    pub fn get_copied(&self, d: &Distribution) -> (r: Option<u16>)
        ensures
            r == self.spec_get(*d),
    {
        match d {
            Distribution::Provers => self.provers,
            Distribution::Validators => self.validators,
            Distribution::Treasury => self.treasury,
            Distribution::DataAvailability => self.data_availability,
            Distribution::Burn => self.burn,
        }
    }

    /// Stores `v` for `d`, returning what was stored before.
    pub fn insert(&mut self, d: Distribution, v: u16) -> (prev: Option<u16>)
        ensures
            prev == old(self).spec_get(d),
            final(self).spec_get(d) == Some(v),
            forall|e: Distribution| e != d ==> #[trigger] final(self).spec_get(e) == old(self).spec_get(e),
    {
        match d {
            Distribution::Provers => {
                let p = self.provers;
                self.provers = Some(v);
                p
            },
            Distribution::Validators => {
                let p = self.validators;
                self.validators = Some(v);
                p
            },
            Distribution::Treasury => {
                let p = self.treasury;
                self.treasury = Some(v);
                p
            },
            Distribution::DataAvailability => {
                let p = self.data_availability;
                self.data_availability = Some(v);
                p
            },
            Distribution::Burn => {
                let p = self.burn;
                self.burn = Some(v);
                p
            },
        }
    }

    /// Sum of the stored percentages, without overflow.
    pub fn total_u32(&self) -> (t: u32)
        ensures
            t == self.total(),
    {
        let mut t: u32 = 0;
        if let Some(v) = self.provers {
            t = t + v as u32;
        }
        if let Some(v) = self.validators {
            t = t + v as u32;
        }
        if let Some(v) = self.treasury {
            t = t + v as u32;
        }
        if let Some(v) = self.data_availability {
            t = t + v as u32;
        }
        if let Some(v) = self.burn {
            t = t + v as u32;
        }
        t
    }
}

/// The default table: every category at its base percentage.
pub open spec fn is_default_table(m: DistributionMap) -> bool {
    forall|d: Distribution| #[trigger] m.spec_get(d) == Some(d.spec_base_percentage())
}

/// Prover metadata for bonus calculation.
#[derive(Clone, Debug, Default)]
pub struct ProverInfo {
    pub id: String,
    pub is_fpga: bool,
    pub proofs_generated: u64,
    pub uptime_secs: u64,
}

/// Validator metadata for reward weighting.
#[derive(Clone, Debug, Default)]
pub struct ValidatorInfo {
    pub id: String,
    pub stake: u64,
    pub uptime_secs: u64,
    pub blocks_proposed: u64,
}

/// Governance parameters.
#[derive(Clone, Copy, Debug, PartialEq, Eq)]
pub struct Governance {
    pub timelock_days: u16,
    pub max_change_per_epoch_bps: u16,
    pub last_change_epoch: u64,
    pub multi_sig_threshold: u8,
}

impl Default for Governance {
    /// 14-day timelock, 5% cap per change, no change yet, 3-of-5 treasury signatures.
    fn default() -> (g: Self)
        ensures
            g.timelock_days == 14,
            g.max_change_per_epoch_bps == 500,
            g.last_change_epoch == 0,
            g.multi_sig_threshold == 3,
    {
        Governance {
            timelock_days: 14,
            max_change_per_epoch_bps: 500,
            last_change_epoch: 0,
            multi_sig_threshold: 3,
        }
    }
}

#[derive(Clone, Copy, Debug, PartialEq, Eq, Structural)]
pub enum FeeError {
    InvalidDistribution(u16),
    TimelockActive(u16),
    ChangeTooLarge(u16, u16),
    MultiSigRequired(u8, u8),
}

/// Fee split result.
#[derive(Clone, Copy, Debug, PartialEq, Eq)]
pub struct FeeSplit {
    pub total_amount: u64,
    pub provers: u64,
    pub validators: u64,
    pub treasury: u64,
    pub da: u64,
    pub burn: u64,
    pub prover_bonus: u64,
    pub epoch: u64,
}

/// Main fee splitter.
#[derive(Clone, Debug)]
pub struct FeeSplitter {
    pub distribution: DistributionMap,
    pub governance: Governance,
    pub fpga_bonus_bps: u16,
    pub current_epoch: u64,
}

/// Number of FPGA provers.
pub open spec fn fpga_count(provers: Seq<ProverInfo>) -> int
    decreases provers.len(),
{
    if provers.len() == 0 {
        0
    } else {
        fpga_count(provers.drop_last()) + if provers.last().is_fpga { 1int } else { 0int }
    }
}

/// Proofs generated by all provers.
pub open spec fn proofs_total(provers: Seq<ProverInfo>) -> int
    decreases provers.len(),
{
    if provers.len() == 0 {
        0
    } else {
        proofs_total(provers.drop_last()) + provers.last().proofs_generated
    }
}

/// Sum of stake times uptime over all validators.
pub open spec fn weight_total(validators: Seq<ValidatorInfo>) -> int
    decreases validators.len(),
{
    if validators.len() == 0 {
        0
    } else {
        weight_total(validators.drop_last()) + validators.last().stake
            * validators.last().uptime_secs
    }
}

/// `pct` percent of `amount`, rounded down.
pub open spec fn share(amount: int, pct: int) -> int {
    amount * pct / 100
}

/// The FPGA provers are at most all provers.
pub proof fn lemma_fpga_count_bounds(provers: Seq<ProverInfo>)
    ensures
        0 <= fpga_count(provers) <= provers.len(),
    decreases provers.len(),
{
    if provers.len() > 0 {
        lemma_fpga_count_bounds(provers.drop_last());
    }
}

/// Validator weights are never negative.
pub proof fn lemma_weight_nonneg(validators: Seq<ValidatorInfo>)
    ensures
        0 <= weight_total(validators),
    decreases validators.len(),
{
    if validators.len() > 0 {
        lemma_weight_nonneg(validators.drop_last());
        let v = validators.last();
        assert(v.stake * v.uptime_secs >= 0) by (nonlinear_arith);
    }
}

/// Proof counts are never negative.
pub proof fn lemma_proofs_nonneg(provers: Seq<ProverInfo>)
    ensures
        0 <= proofs_total(provers),
    decreases provers.len(),
{
    if provers.len() > 0 {
        lemma_proofs_nonneg(provers.drop_last());
    }
}

impl FeeSplitter {
    /// Percentage used for `d` when splitting: the stored one, else the base one.
    pub open spec fn pct(self, d: Distribution) -> int {
        match self.distribution.spec_get(d) {
            Some(v) => v as int,
            None => d.spec_base_percentage() as int,
        }
    }

    /// Share of `amount` a category gets by its percentage.
    pub open spec fn base_share(self, amount: u64, d: Distribution) -> int {
        share(amount as int, self.pct(d))
    }

    /// FPGA bonus: bonus basis points of the prover share, times the fraction of
    /// provers that are FPGA, when any proof was generated at all.
    pub open spec fn bonus(self, amount: u64, provers: Seq<ProverInfo>) -> int {
        if proofs_total(provers) > 0 {
            let n = if provers.len() > 1 { provers.len() as int } else { 1int };
            self.base_share(amount, Distribution::Provers) * self.fpga_bonus_bps / 10000
                * fpga_count(provers) / n
        } else {
            0
        }
    }

    /// Sum of all parts before the burn adjustment.
    pub open spec fn distributed(self, amount: u64, provers: Seq<ProverInfo>) -> int {
        self.base_share(amount, Distribution::Provers) + self.bonus(amount, provers)
            + self.base_share(amount, Distribution::Validators) + self.base_share(
            amount,
            Distribution::Treasury,
        ) + self.base_share(amount, Distribution::DataAvailability) + self.base_share(
            amount,
            Distribution::Burn,
        )
    }

    /// The arithmetic of a split stays within the machine words (the split
    /// panics otherwise).
    pub open spec fn split_fits(
        self,
        amount: u64,
        provers: Seq<ProverInfo>,
        validators: Seq<ValidatorInfo>,
    ) -> bool {
        &&& amount * self.pct(Distribution::Provers) <= u64::MAX
        &&& amount * self.pct(Distribution::Validators) <= u64::MAX
        &&& amount * self.pct(Distribution::Treasury) <= u64::MAX
        &&& amount * self.pct(Distribution::DataAvailability) <= u64::MAX
        &&& amount * self.pct(Distribution::Burn) <= u64::MAX
        &&& proofs_total(provers) <= u64::MAX
        &&& weight_total(validators) <= u128::MAX
        &&& self.base_share(amount, Distribution::Provers) * self.fpga_bonus_bps <= u64::MAX
        &&& self.base_share(amount, Distribution::Provers) * self.fpga_bonus_bps / 10000
            * fpga_count(provers) <= u64::MAX
        &&& self.distributed(amount, provers) <= u64::MAX
    }

    /// The split of `amount` (once the table has been validated).
    pub open spec fn spec_split(self, amount: u64, provers: Seq<ProverInfo>) -> FeeSplit {
        let pb = self.base_share(amount, Distribution::Provers);
        let bonus = self.bonus(amount, provers);
        let burn = self.base_share(amount, Distribution::Burn);
        let td = self.distributed(amount, provers);
        let burn_adj = if td > amount {
            if burn >= td - amount {
                burn - (td - amount)
            } else {
                0
            }
        } else {
            burn
        };
        FeeSplit {
            total_amount: amount,
            provers: (pb + bonus) as u64,
            validators: self.base_share(amount, Distribution::Validators) as u64,
            treasury: self.base_share(amount, Distribution::Treasury) as u64,
            da: self.base_share(amount, Distribution::DataAvailability) as u64,
            burn: burn_adj as u64,
            prover_bonus: bonus as u64,
            epoch: self.current_epoch,
        }
    }

    /// Epochs a change must wait after the previous one (6-second blocks).
    pub open spec fn min_epochs(self) -> int {
        self.governance.timelock_days * 24 * 60 * 60 / 6
    }

    /// Epochs elapsed since the last change, saturating at zero.
    pub open spec fn epochs_since(self, epoch: u64) -> int {
        if epoch >= self.governance.last_change_epoch {
            epoch - self.governance.last_change_epoch
        } else {
            0
        }
    }

    /// Largest change per epoch allowed, in percent.
    pub open spec fn change_cap(self) -> int {
        (self.governance.max_change_per_epoch_bps / 100) as int
    }

    /// Change that `new` makes to category `d` (absent in `new`: no change).
    pub open spec fn change(self, new: DistributionMap, d: Distribution) -> int {
        match new.spec_get(d) {
            Some(n) => {
                let o = opt_val(self.distribution.spec_get(d));
                if n >= o {
                    n - o
                } else {
                    o - n
                }
            },
            None => 0,
        }
    }

    /// Largest change over all categories.
    pub open spec fn max_change(self, new: DistributionMap) -> int {
        let a = self.change(new, Distribution::Provers);
        let b = self.change(new, Distribution::Validators);
        let c = self.change(new, Distribution::Treasury);
        let d = self.change(new, Distribution::DataAvailability);
        let e = self.change(new, Distribution::Burn);
        let m1 = if a >= b { a } else { b };
        let m2 = if m1 >= c { m1 } else { c };
        let m3 = if m2 >= d { m2 } else { d };
        if m3 >= e {
            m3
        } else {
            e
        }
    }

    /// What `propose_change` answers.
    pub open spec fn spec_propose(self, new: DistributionMap, epoch: u64) -> Result<(), FeeError> {
        if self.epochs_since(epoch) < self.min_epochs() {
            Err(
                FeeError::TimelockActive(
                    ((self.min_epochs() - self.epochs_since(epoch)) * 6 / 86400) as u16,
                ),
            )
        } else if self.max_change(new) > self.change_cap() {
            Err(FeeError::ChangeTooLarge(self.max_change(new) as u16, self.change_cap() as u16))
        } else if new.total() != 100 {
            Err(FeeError::InvalidDistribution(new.total() as u16))
        } else {
            Ok(())
        }
    }

    /// Splitter with the default table and governance, epoch 0.
    pub fn new() -> (s: Self)
        ensures
            is_default_table(s.distribution),
            s.governance.timelock_days == 14,
            s.governance.max_change_per_epoch_bps == 500,
            s.governance.last_change_epoch == 0,
            s.governance.multi_sig_threshold == 3,
            s.fpga_bonus_bps == 2000,
            s.current_epoch == 0,
    {
        let mut distribution = DistributionMap::new();
        distribution.insert(Distribution::Provers, 35);
        distribution.insert(Distribution::Validators, 25);
        distribution.insert(Distribution::Treasury, 20);
        distribution.insert(Distribution::DataAvailability, 15);
        distribution.insert(Distribution::Burn, 5);
        FeeSplitter {
            distribution,
            governance: Governance::default(),
            fpga_bonus_bps: 2000,
            current_epoch: 0,
        }
    }

    /// The table must sum to 100%.
    pub fn validate(&self) -> (r: Result<(), FeeError>)
        requires
            self.distribution.total() <= u16::MAX,
        ensures
            r == if self.distribution.total() == 100 {
                Ok::<(), FeeError>(())
            } else {
                Err(FeeError::InvalidDistribution(self.distribution.total() as u16))
            },
    {
        let total = self.distribution.total_u32() as u16;
        if total != 100 {
            return Err(FeeError::InvalidDistribution(total));
        }
        Ok(())
    }

    fn pct_of(&self, d: Distribution) -> (p: u16)
        ensures
            p == self.pct(d),
    {
        match self.distribution.get_copied(&d) {
            Some(v) => v,
            None => d.base_percentage(),
        }
    }

    /// Whether `split_fits` holds: the arithmetic of splitting `amount`
    /// among these provers and validators stays within the machine words.
    pub fn split_fits_exec(&self, amount: u64, provers: &[ProverInfo], validators: &[ValidatorInfo]) -> (b: bool)
        ensures
            b == self.split_fits(amount, provers@, validators@),
    {
        let max: u128 = 0xffff_ffff_ffff_ffffu128;
        let a = amount as u128;
        let pp = self.pct_of(Distribution::Provers) as u128;
        let pv = self.pct_of(Distribution::Validators) as u128;
        let pt = self.pct_of(Distribution::Treasury) as u128;
        let pd = self.pct_of(Distribution::DataAvailability) as u128;
        let pbn = self.pct_of(Distribution::Burn) as u128;
        let (xp, xv, xt, xd, xb) = match (a.checked_mul(pp), a.checked_mul(pv), a.checked_mul(pt),
            a.checked_mul(pd), a.checked_mul(pbn)) {
            (Some(xp), Some(xv), Some(xt), Some(xd), Some(xb)) => (xp, xv, xt, xd, xb),
            _ => {
                return false;
            },
        };
        if xp > max || xv > max || xt > max || xd > max || xb > max {
            return false;
        }
        let mut fpga_cnt: u64 = 0;
        let mut total_proofs: u64 = 0;
        let mut i: usize = 0;
        while i < provers.len()
            invariant
                0 <= i <= provers@.len(),
                fpga_cnt == fpga_count(provers@.take(i as int)),
                total_proofs == proofs_total(provers@.take(i as int)),
                fpga_cnt <= i,
            decreases provers@.len() - i,
        {
            assert(provers@.take(i + 1).drop_last() =~= provers@.take(i as int));
            if provers[i].is_fpga {
                fpga_cnt = fpga_cnt + 1;
            }
            match total_proofs.checked_add(provers[i].proofs_generated) {
                Some(t) => {
                    total_proofs = t;
                },
                None => {
                    proof {
                        lemma_proofs_total_prefix(provers@, i + 1);
                    }
                    return false;
                },
            }
            i = i + 1;
        }
        assert(provers@.take(provers@.len() as int) =~= provers@);
        let mut total_weight: u128 = 0;
        let mut k: usize = 0;
        while k < validators.len()
            invariant
                0 <= k <= validators@.len(),
                total_weight == weight_total(validators@.take(k as int)),
            decreases validators@.len() - k,
        {
            assert(validators@.take(k + 1).drop_last() =~= validators@.take(k as int));
            let st = validators[k].stake as u128;
            let up = validators[k].uptime_secs as u128;
            assert(st * up <= 0xffff_ffff_ffff_fffe_0000_0000_0000_0001u128) by (nonlinear_arith)
                requires
                    st <= 0xffff_ffff_ffff_ffffu128,
                    up <= 0xffff_ffff_ffff_ffffu128,
            ;
            let w = st * up;
            match total_weight.checked_add(w) {
                Some(t) => {
                    total_weight = t;
                },
                None => {
                    proof {
                        lemma_weight_total_prefix(validators@, k + 1);
                    }
                    return false;
                },
            }
            k = k + 1;
        }
        assert(validators@.take(validators@.len() as int) =~= validators@);
        let pb = xp / 100;
        let bps = self.fpga_bonus_bps as u128;
        let pbb = match pb.checked_mul(bps) {
            Some(x) => x,
            None => {
                return false;
            },
        };
        if pbb > max {
            return false;
        }
        let per = pbb / 10000;
        let pf = match per.checked_mul(fpga_cnt as u128) {
            Some(x) => x,
            None => {
                return false;
            },
        };
        if pf > max {
            return false;
        }
        let n: u128 = if provers.len() > 1 { provers.len() as u128 } else { 1 };
        let bonus = if total_proofs > 0 { pf / n } else { 0 };
        let d1 = match pb.checked_add(bonus) {
            Some(x) => x,
            None => {
                return false;
            },
        };
        let d2 = match d1.checked_add(xv / 100) {
            Some(x) => x,
            None => {
                return false;
            },
        };
        let d3 = match d2.checked_add(xt / 100) {
            Some(x) => x,
            None => {
                return false;
            },
        };
        let d4 = match d3.checked_add(xd / 100) {
            Some(x) => x,
            None => {
                return false;
            },
        };
        let dist = match d4.checked_add(xb / 100) {
            Some(x) => x,
            None => {
                return false;
            },
        };
        dist <= max
    }

    /// Splits `amount` between provers (with the FPGA bonus), validators,
    /// treasury, data availability and burn.
    pub fn split(&self, amount: u64, provers: &[ProverInfo], validators: &[ValidatorInfo]) -> (r:
        Result<FeeSplit, FeeError>)
        requires
            self.distribution.total() <= u16::MAX,
            self.distribution.total() == 100 ==> self.split_fits(amount, provers@, validators@),
        ensures
            r == if self.distribution.total() == 100 {
                Ok::<FeeSplit, FeeError>(self.spec_split(amount, provers@))
            } else {
                Err(FeeError::InvalidDistribution(self.distribution.total() as u16))
            },
    {
        let v = self.validate();
        if let Err(e) = v {
            return Err(e);
        }
        let provers_pct = self.pct_of(Distribution::Provers);
        let validators_pct = self.pct_of(Distribution::Validators);
        let treasury_pct = self.pct_of(Distribution::Treasury);
        let da_pct = self.pct_of(Distribution::DataAvailability);
        let burn_pct = self.pct_of(Distribution::Burn);
        let provers_base = amount * provers_pct as u64 / 100;
        let validators_base = amount * validators_pct as u64 / 100;
        let treasury = amount * treasury_pct as u64 / 100;
        let da = amount * da_pct as u64 / 100;
        let burn = amount * burn_pct as u64 / 100;

        let mut fpga_cnt: u64 = 0;
        let mut total_proofs: u64 = 0;
        let mut i: usize = 0;
        proof {
            lemma_proofs_nonneg(provers@);
        }
        while i < provers.len()
            invariant
                0 <= i <= provers@.len(),
                fpga_cnt == fpga_count(provers@.take(i as int)),
                total_proofs == proofs_total(provers@.take(i as int)),
                proofs_total(provers@) <= u64::MAX,
            decreases provers@.len() - i,
        {
            assert(provers@.take(i + 1).drop_last() =~= provers@.take(i as int));
            proof {
                lemma_proofs_total_prefix(provers@, i + 1);
                lemma_fpga_count_bounds(provers@.take(i + 1));
            }
            if provers[i].is_fpga {
                fpga_cnt = fpga_cnt + 1;
            }
            total_proofs = total_proofs + provers[i].proofs_generated;
            i = i + 1;
        }
        assert(provers@.take(provers@.len() as int) =~= provers@);
        let n: u64 = if provers.len() > 1 { provers.len() as u64 } else { 1 };
        proof {
            lemma_fpga_count_bounds(provers@);
        }
        let prover_bonus = if total_proofs > 0 {
            provers_base * self.fpga_bonus_bps as u64 / 10000 * fpga_cnt / n
        } else {
            0
        };

        // Validator weighting: stake times uptime (the share itself is not weighted).
        let mut total_weight: u128 = 0;
        let mut k: usize = 0;
        proof {
            lemma_weight_nonneg(validators@);
        }
        while k < validators.len()
            invariant
                0 <= k <= validators@.len(),
                total_weight == weight_total(validators@.take(k as int)),
                weight_total(validators@) <= u128::MAX,
            decreases validators@.len() - k,
        {
            assert(validators@.take(k + 1).drop_last() =~= validators@.take(k as int));
            proof {
                lemma_weight_total_prefix(validators@, k + 1);
            }
            let w = validators[k].stake as u128 * validators[k].uptime_secs as u128;
            total_weight = total_weight + w;
            k = k + 1;
        }
        let validators_final = if total_weight > 0 {
            validators_base
        } else {
            validators_base
        };

        let provers_final = provers_base + prover_bonus;
        let total_distributed = provers_final + validators_final + treasury + da + burn;
        let burn_adjusted = if total_distributed > amount {
            burn.saturating_sub(total_distributed - amount)
        } else {
            burn
        };
        Ok(
            FeeSplit {
                total_amount: amount,
                provers: provers_final,
                validators: validators_final,
                treasury,
                da,
                burn: burn_adjusted,
                prover_bonus,
                epoch: self.current_epoch,
            },
        )
    }

    fn change_of(old: Option<u16>, new: Option<u16>) -> (c: u16)
        ensures
            c == match new {
                Some(n) => {
                    let o = opt_val(old);
                    if n >= o {
                        n - o
                    } else {
                        o - n
                    }
                },
                None => 0,
            },
    {
        match new {
            Some(n) => {
                let o = match old {
                    Some(v) => v,
                    None => 0,
                };
                if n > o {
                    n - o
                } else {
                    o - n
                }
            },
            None => 0,
        }
    }

    /// Proposes a new table: refused inside the timelock, when a category moves
    /// by more than the cap, or when the table does not sum to 100%.
    pub fn propose_change(&mut self, new_distribution: DistributionMap, current_epoch: u64) -> (r:
        Result<(), FeeError>)
        requires
            old(self).epochs_since(current_epoch) >= old(self).min_epochs() && old(self).max_change(
                new_distribution,
            ) <= old(self).change_cap() ==> new_distribution.total() <= u16::MAX,
        ensures
            r == old(self).spec_propose(new_distribution, current_epoch),
            r is Ok ==> final(self).distribution == new_distribution
                && final(self).governance.last_change_epoch == current_epoch
                && final(self).current_epoch == current_epoch
                && final(self).governance.timelock_days == old(self).governance.timelock_days
                && final(self).governance.max_change_per_epoch_bps
                == old(self).governance.max_change_per_epoch_bps
                && final(self).governance.multi_sig_threshold
                == old(self).governance.multi_sig_threshold
                && final(self).fpga_bonus_bps == old(self).fpga_bonus_bps,
            r is Err ==> *final(self) == *old(self),
    {
        let epochs_since_change = current_epoch.saturating_sub(self.governance.last_change_epoch);
        let min_epochs = self.governance.timelock_days as u64 * 24 * 60 * 60 / 6;
        if epochs_since_change < min_epochs {
            let remaining = ((min_epochs - epochs_since_change) * 6) / 86400;
            return Err(FeeError::TimelockActive(remaining as u16));
        }
        let a = Self::change_of(self.distribution.provers, new_distribution.provers);
        let b = Self::change_of(self.distribution.validators, new_distribution.validators);
        let c = Self::change_of(self.distribution.treasury, new_distribution.treasury);
        let d = Self::change_of(self.distribution.data_availability, new_distribution.data_availability);
        let e = Self::change_of(self.distribution.burn, new_distribution.burn);
        let mut max_change: u16 = 0;
        max_change = if a >= max_change { a } else { max_change };
        max_change = if b >= max_change { b } else { max_change };
        max_change = if c >= max_change { c } else { max_change };
        max_change = if d >= max_change { d } else { max_change };
        max_change = if e >= max_change { e } else { max_change };
        let cap = self.governance.max_change_per_epoch_bps / 100;
        if max_change > cap {
            return Err(FeeError::ChangeTooLarge(max_change, cap));
        }
        let total = new_distribution.total_u32() as u16;
        if total != 100 {
            return Err(FeeError::InvalidDistribution(total));
        }
        self.distribution = new_distribution;
        self.governance.last_change_epoch = current_epoch;
        self.current_epoch = current_epoch;
        Ok(())
    }

    /// The treasury needs at least the threshold of signatures.
    pub fn check_treasury_sig(&self, sigs: u8) -> (r: Result<(), FeeError>)
        ensures
            r == if sigs < self.governance.multi_sig_threshold {
                Err(FeeError::MultiSigRequired(sigs, self.governance.multi_sig_threshold))
            } else {
                Ok::<(), FeeError>(())
            },
    {
        if sigs < self.governance.multi_sig_threshold {
            return Err(FeeError::MultiSigRequired(sigs, self.governance.multi_sig_threshold));
        }
        Ok(())
    }

    /// Moves to the next epoch.
    pub fn advance_epoch(&mut self)
        requires
            old(self).current_epoch < u64::MAX,
        ensures
            final(self).current_epoch == old(self).current_epoch + 1,
            final(self).distribution == old(self).distribution,
            final(self).governance == old(self).governance,
            final(self).fpga_bonus_bps == old(self).fpga_bonus_bps,
    {
        self.current_epoch = self.current_epoch + 1;
    }
}

/// Law: the default table sums to 100%, so a fresh splitter validates.
pub proof fn lemma_default_table_valid(m: DistributionMap)
    requires
        is_default_table(m),
    ensures
        m.total() == 100,
{
    assert(m.spec_get(Distribution::Provers) == Some(35u16));
    assert(m.spec_get(Distribution::Validators) == Some(25u16));
    assert(m.spec_get(Distribution::Treasury) == Some(20u16));
    assert(m.spec_get(Distribution::DataAvailability) == Some(15u16));
    assert(m.spec_get(Distribution::Burn) == Some(5u16));
}

/// Law: an accepted governance change leaves a table that sums to 100%, moves
/// no category by more than the cap, and comes after the timelock.
pub proof fn lemma_accepted_change(s: FeeSplitter, new: DistributionMap, epoch: u64)
    requires
        s.spec_propose(new, epoch) is Ok,
    ensures
        new.total() == 100,
        forall|d: Distribution| #[trigger] s.change(new, d) <= s.change_cap(),
        s.epochs_since(epoch) >= s.min_epochs(),
{
    assert forall|d: Distribution| #[trigger] s.change(new, d) <= s.change_cap() by {
        match d {
            Distribution::Provers => {},
            Distribution::Validators => {},
            Distribution::Treasury => {},
            Distribution::DataAvailability => {},
            Distribution::Burn => {},
        }
    }
}

/// Law: two accepted changes are at least the timelock apart. `s1` is the
/// splitter after the first change, accepted at `e1`; the second is
/// accepted at `e2`. (With a zero timelock a later change may carry an
/// earlier epoch, so the timelock must be positive.)
pub proof fn lemma_timelock_spacing(s1: FeeSplitter, new: DistributionMap, e1: u64, e2: u64)
    requires
        s1.governance.last_change_epoch == e1,
        s1.min_epochs() > 0,
        s1.spec_propose(new, e2) is Ok,
    ensures
        e2 >= e1 + s1.min_epochs(),
{
}

proof fn lemma_shares_within(amount: int, a: int, b: int, c: int, d: int, e: int)
    requires
        amount >= 0,
        a >= 0,
        b >= 0,
        c >= 0,
        d >= 0,
        e >= 0,
        a + b + c + d + e == 100,
    ensures
        share(amount, a) + share(amount, b) + share(amount, c) + share(amount, d) + share(amount, e)
            <= amount,
{
    let x = amount * a;
    let y = amount * b;
    let z = amount * c;
    let u = amount * d;
    let v = amount * e;
    assert(x + y + z + u + v == amount * 100) by (nonlinear_arith)
        requires
            x == amount * a,
            y == amount * b,
            z == amount * c,
            u == amount * d,
            v == amount * e,
            a + b + c + d + e == 100,
    ;
    vstd::arithmetic::div_mod::lemma_fundamental_div_mod(x, 100);
    vstd::arithmetic::div_mod::lemma_fundamental_div_mod(y, 100);
    vstd::arithmetic::div_mod::lemma_fundamental_div_mod(z, 100);
    vstd::arithmetic::div_mod::lemma_fundamental_div_mod(u, 100);
    vstd::arithmetic::div_mod::lemma_fundamental_div_mod(v, 100);
    assert(x % 100 >= 0 && y % 100 >= 0 && z % 100 >= 0 && u % 100 >= 0 && v % 100 >= 0);
}

/// Law: with a complete table summing to 100% and an FPGA bonus no larger
/// than the burn share, the parts of a split add up to at most the amount.
/// (When the bonus exceeds the burn share the parts may exceed the amount:
/// the burn cannot go below zero.)
pub proof fn lemma_split_within_amount(s: FeeSplitter, amount: u64, provers: Seq<ProverInfo>,
    validators: Seq<ValidatorInfo>)
    requires
        forall|d: Distribution| #[trigger] s.distribution.spec_get(d) is Some,
        s.distribution.total() == 100,
        s.split_fits(amount, provers, validators),
        s.bonus(amount, provers) <= s.base_share(amount, Distribution::Burn),
    ensures
        ({
            let f = s.spec_split(amount, provers);
            f.provers + f.validators + f.treasury + f.da + f.burn <= amount
        }),
{
    assert(s.distribution.spec_get(Distribution::Provers) is Some);
    assert(s.distribution.spec_get(Distribution::Validators) is Some);
    assert(s.distribution.spec_get(Distribution::Treasury) is Some);
    assert(s.distribution.spec_get(Distribution::DataAvailability) is Some);
    assert(s.distribution.spec_get(Distribution::Burn) is Some);
    lemma_shares_within(amount as int, s.pct(Distribution::Provers), s.pct(Distribution::Validators),
        s.pct(Distribution::Treasury), s.pct(Distribution::DataAvailability), s.pct(Distribution::Burn));
    lemma_fpga_count_bounds(provers);
    let pb = s.base_share(amount, Distribution::Provers);
    assert(pb >= 0) by (nonlinear_arith)
        requires
            pb == amount * s.pct(Distribution::Provers) / 100,
            s.pct(Distribution::Provers) >= 0,
    ;
    assert(s.bonus(amount, provers) >= 0) by {
        if proofs_total(provers) > 0 {
            let n = if provers.len() > 1 { provers.len() as int } else { 1int };
            let q = pb * s.fpga_bonus_bps / 10000;
            assert(q >= 0) by (nonlinear_arith)
                requires
                    q == pb * s.fpga_bonus_bps / 10000,
                    pb >= 0,
                    s.fpga_bonus_bps >= 0,
            ;
            assert(q * fpga_count(provers) / n >= 0) by (nonlinear_arith)
                requires
                    q >= 0,
                    fpga_count(provers) >= 0,
                    n >= 1,
            ;
        }
    }
    assert(s.base_share(amount, Distribution::Validators) >= 0) by (nonlinear_arith)
        requires
            s.pct(Distribution::Validators) >= 0,
    ;
    assert(s.base_share(amount, Distribution::Treasury) >= 0) by (nonlinear_arith)
        requires
            s.pct(Distribution::Treasury) >= 0,
    ;
    assert(s.base_share(amount, Distribution::DataAvailability) >= 0) by (nonlinear_arith)
        requires
            s.pct(Distribution::DataAvailability) >= 0,
    ;
    assert(s.base_share(amount, Distribution::Burn) >= 0) by (nonlinear_arith)
        requires
            s.pct(Distribution::Burn) >= 0,
    ;
}

proof fn lemma_proofs_total_prefix(provers: Seq<ProverInfo>, n: int)
    requires
        0 <= n <= provers.len(),
    ensures
        proofs_total(provers.take(n)) <= proofs_total(provers),
    decreases provers.len(),
{
    if n < provers.len() {
        assert(provers.drop_last().take(n) =~= provers.take(n));
        lemma_proofs_total_prefix(provers.drop_last(), n);
    } else {
        assert(provers.take(n) =~= provers);
    }
}

proof fn lemma_weight_total_prefix(validators: Seq<ValidatorInfo>, n: int)
    requires
        0 <= n <= validators.len(),
    ensures
        weight_total(validators.take(n)) <= weight_total(validators),
        0 <= weight_total(validators.take(n)),
    decreases validators.len(),
{
    lemma_weight_nonneg(validators.take(n));
    if n < validators.len() {
        assert(validators.drop_last().take(n) =~= validators.take(n));
        lemma_weight_total_prefix(validators.drop_last(), n);
        let v = validators.last();
        assert(v.stake * v.uptime_secs >= 0) by (nonlinear_arith);
    } else {
        assert(validators.take(n) =~= validators);
    }
}

/// Law: the FPGA bonus is the prover share's `fpga_bonus_bps` basis points
/// scaled by the fraction of provers that run on an FPGA, rounded down:
/// `bonus * n <= per * fpga < (bonus + 1) * n` for `n` provers (at least
/// one), `fpga` of them on an FPGA, and `per` the basis-point part of the
/// prover share. So it never exceeds `per`, is `per` when every prover is an
/// FPGA, 0 when none is or no proof was generated, and the provers receive
/// their base share plus the bonus.
pub proof fn lemma_bonus_fpga_fraction(s: FeeSplitter, amount: u64, provers: Seq<ProverInfo>,
    validators: Seq<ValidatorInfo>)
    requires
        s.split_fits(amount, provers, validators),
    ensures
        ({
            let pb = amount * s.pct(Distribution::Provers) / 100;
            let per = pb * s.fpga_bonus_bps / 10000;
            let n = if provers.len() > 1 { provers.len() as int } else { 1int };
            let fpga = fpga_count(provers);
            let sp = s.spec_split(amount, provers);
            &&& proofs_total(provers) == 0 ==> sp.prover_bonus == 0
            &&& proofs_total(provers) > 0 ==> sp.prover_bonus * n <= per * fpga < (sp.prover_bonus
                + 1) * n
            &&& sp.prover_bonus <= per
            &&& fpga == 0 ==> sp.prover_bonus == 0
            &&& (proofs_total(provers) > 0 && fpga == provers.len()) ==> sp.prover_bonus == per
            &&& sp.provers == pb + sp.prover_bonus
        }),
{
    let pb = amount * s.pct(Distribution::Provers) / 100;
    let per = pb * s.fpga_bonus_bps / 10000;
    let n = if provers.len() > 1 { provers.len() as int } else { 1int };
    let fpga = fpga_count(provers);
    lemma_fpga_count_bounds(provers);
    lemma_proofs_nonneg(provers);
    assert(pb >= 0) by (nonlinear_arith)
        requires
            pb == amount * s.pct(Distribution::Provers) / 100,
            s.pct(Distribution::Provers) >= 0,
            amount >= 0,
    ;
    assert(per >= 0) by (nonlinear_arith)
        requires
            per == pb * s.fpga_bonus_bps / 10000,
            pb >= 0,
            s.fpga_bonus_bps >= 0,
    ;
    assert(fpga <= n);
    let b = s.bonus(amount, provers);
    if proofs_total(provers) > 0 {
        assert(b == per * fpga / n);
        vstd::arithmetic::div_mod::lemma_fundamental_div_mod(per * fpga, n);
        vstd::arithmetic::div_mod::lemma_mod_bound(per * fpga, n);
        assert(per * fpga <= per * n) by (nonlinear_arith)
            requires
                0 <= fpga <= n,
                per >= 0,
        ;
        assert(0 <= b <= per) by (nonlinear_arith)
            requires
                per * fpga == n * b + (per * fpga) % n,
                0 <= (per * fpga) % n < n,
                per * fpga <= per * n,
                per * fpga >= 0,
                n >= 1,
        ;
        assert(b * n <= per * fpga < (b + 1) * n) by (nonlinear_arith)
            requires
                per * fpga == n * b + (per * fpga) % n,
                0 <= (per * fpga) % n < n,
        ;
        if fpga == 0 {
            assert(b == 0) by (nonlinear_arith)
                requires
                    b * n <= per * fpga < (b + 1) * n,
                    fpga == 0,
                    n >= 1,
            ;
        }
        if fpga == provers.len() {
            assert(provers.len() > 0);
            assert(n == fpga);
            assert(b == per) by (nonlinear_arith)
                requires
                    b * n <= per * fpga < (b + 1) * n,
                    n == fpga,
                    n >= 1,
            ;
        }
    }
    assert(b <= per * fpga) by {
        if proofs_total(provers) > 0 {
            assert(b * n <= per * fpga);
            assert(b <= b * n) by (nonlinear_arith)
                requires
                    b >= 0,
                    n >= 1,
            ;
        }
    }
    assert(per * fpga <= u64::MAX);
    let sp = s.spec_split(amount, provers);
    assert(0 <= b);
    assert(sp.prover_bonus == b);
    assert(pb + b <= s.distributed(amount, provers)) by {
        assert(s.base_share(amount, Distribution::Validators) >= 0) by (nonlinear_arith)
            requires
                s.base_share(amount, Distribution::Validators) == amount * s.pct(
                    Distribution::Validators,
                ) / 100,
                s.pct(Distribution::Validators) >= 0,
        ;
        assert(s.base_share(amount, Distribution::Treasury) >= 0) by (nonlinear_arith)
            requires
                s.base_share(amount, Distribution::Treasury) == amount * s.pct(
                    Distribution::Treasury,
                ) / 100,
                s.pct(Distribution::Treasury) >= 0,
        ;
        assert(s.base_share(amount, Distribution::DataAvailability) >= 0) by (nonlinear_arith)
            requires
                s.base_share(amount, Distribution::DataAvailability) == amount * s.pct(
                    Distribution::DataAvailability,
                ) / 100,
                s.pct(Distribution::DataAvailability) >= 0,
        ;
        assert(s.base_share(amount, Distribution::Burn) >= 0) by (nonlinear_arith)
            requires
                s.base_share(amount, Distribution::Burn) == amount * s.pct(Distribution::Burn)
                    / 100,
                s.pct(Distribution::Burn) >= 0,
        ;
    }
    assert(pb == s.base_share(amount, Distribution::Provers));
    assert(sp.provers == pb + b);
}

} // verus!
