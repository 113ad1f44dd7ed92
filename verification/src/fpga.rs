//! FPGA prover logic: power states, the proof hash chain over a PLONK
//! input, triple-modular-redundancy voting, and the checkpoint log kept
//! against radiation faults.
use vstd::prelude::*;
use std::collections::VecDeque;
use crate::crypto::{poseidon, poseidon256_pair, hash_eq, copy_hash};

verus! {

/// FPGA power state.
#[derive(Clone, Copy, Debug, PartialEq, Eq, Structural)]
pub enum PowerState {
    Full,
    Balanced,
    Eco,
}

impl Default for PowerState {
    fn default() -> (s: Self)
        ensures
            s == PowerState::Full,
    {
        PowerState::Full
    }
}

/// The `Duration` of `ms` milliseconds, as `std::time::Duration::from_millis`
/// builds it.
pub uninterp spec fn duration_of_millis(ms: u64) -> std::time::Duration;

/// Calls `std::time::Duration::from_millis`. The call depends on its
/// argument alone and does not panic for any `u64`; the contract claims that
/// its result is `duration_of_millis(ms)` and nothing about the inside of the
/// `Duration`, which Verus holds opaque.
#[verifier::external_body]
fn duration_from_millis(ms: u64) -> (d: std::time::Duration)
    ensures
        d == duration_of_millis(ms),
{
    std::time::Duration::from_millis(ms)
}

/// Target proof time of a power state, in milliseconds.
pub open spec fn spec_target_millis(p: PowerState) -> u64 {
    match p {
        PowerState::Full => 1600,
        PowerState::Balanced => 2200,
        PowerState::Eco => 4000,
    }
}

/// Power draw of a power state, in watts.
pub open spec fn spec_power_watts(p: PowerState) -> u16 {
    match p {
        PowerState::Full => 67,
        PowerState::Balanced => 45,
        PowerState::Eco => 25,
    }
}

impl PowerState {
    /// Target proof time in milliseconds: Full 1600, Balanced 2200, Eco 4000.
    pub fn target_millis(&self) -> (ms: u64)
        ensures
            ms == spec_target_millis(*self),
    {
        match self {
            PowerState::Full => 1600,
            PowerState::Balanced => 2200,
            PowerState::Eco => 4000,
        }
    }

    /// Target proof time: `target_millis` milliseconds.
    pub fn target_time(&self) -> (d: std::time::Duration)
        ensures
            d == duration_of_millis(spec_target_millis(*self)),
    {
        duration_from_millis(self.target_millis())
    }

    /// Power draw in watts: Full 67, Balanced 45, Eco 25.
    pub fn power_watts(&self) -> (w: u16)
        ensures
            w == spec_power_watts(*self),
    {
        match self {
            PowerState::Full => 67,
            PowerState::Balanced => 45,
            PowerState::Eco => 25,
        }
    }
}

/// The UTF-8 bytes of ASCII text are its character codes.
proof fn lemma_ascii_literal_bytes(chars: Seq<char>, bytes: Seq<u8>)
    requires
        chars.len() == bytes.len(),
        forall|i: int|
            0 <= i < chars.len() ==> '\0' <= #[trigger] chars[i] <= '\u{7f}' && chars[i] as u8
                == bytes[i],
    ensures
        vstd::utf8::encode_utf8(chars) == bytes,
{
    assert(vstd::utf8::is_ascii_chars(chars));
    vstd::utf8::is_ascii_chars_encode_utf8(chars);
    assert(vstd::utf8::encode_utf8(chars) =~= bytes);
}

/// The power state a benchmark names: `eco`, `balanced`, anything else Full.
pub fn power_state_from_name(name: &str) -> (p: PowerState)
    ensures
        p == if name@ == "eco"@ {
            PowerState::Eco
        } else if name@ == "balanced"@ {
            PowerState::Balanced
        } else {
            PowerState::Full
        },
{
    let b = name.as_bytes();
    let eco: [u8; 3] = [101u8, 99, 111];
    let balanced: [u8; 8] = [98u8, 97, 108, 97, 110, 99, 101, 100];
    proof {
        reveal_strlit("eco");
        reveal_strlit("balanced");
        lemma_ascii_literal_bytes("eco"@, eco@);
        lemma_ascii_literal_bytes("balanced"@, balanced@);
        vstd::utf8::encode_utf8_decode_utf8(name@);
        vstd::utf8::encode_utf8_decode_utf8("eco"@);
        vstd::utf8::encode_utf8_decode_utf8("balanced"@);
    }
    if crate::crypto::bytes_eq(b, eco.as_slice()) {
        PowerState::Eco
    } else if crate::crypto::bytes_eq(b, balanced.as_slice()) {
        PowerState::Balanced
    } else {
        PowerState::Full
    }
}

/// Radiation event detected by the scrubber.
#[derive(Clone, Debug)]
pub struct RadEvent {
    pub bit_flips: u32,
    pub region: String,
    pub timestamp: u64,
}

/// Proof input for the PLONK circuit.
#[derive(Clone, Debug)]
pub struct PlonkInput {
    pub nullifiers: Vec<crate::crypto::Hash>,
    pub commitments: Vec<crate::crypto::Hash>,
    pub public_inputs: Vec<u64>,
}

/// Proof output.
#[derive(Clone, Debug)]
pub struct PlonkProof {
    pub proof_bytes: Vec<u8>,
    pub public_inputs: Vec<u64>,
    pub verification_hash: crate::crypto::Hash,
    pub generation_time_ms: u64,
    pub power_consumed_mj: u64,
}

/// Folds `hs` into `acc`, one pairwise Poseidon hash per item.
pub open spec fn hash_chain(acc: Seq<u8>, hs: Seq<crate::crypto::Hash>) -> Seq<u8>
    decreases hs.len(),
{
    if hs.len() == 0 {
        acc
    } else {
        poseidon(hash_chain(acc, hs.drop_last()) + hs.last()@)
    }
}

/// The hash a proof of `input` carries: 32 zero bytes folded with every
/// nullifier, then every commitment.
pub open spec fn spec_proof_hash(input: PlonkInput) -> Seq<u8> {
    hash_chain(hash_chain(Seq::new(32, |i: int| 0u8), input.nullifiers@), input.commitments@)
}

fn fold_hashes(start: &crate::crypto::Hash, hs: &Vec<crate::crypto::Hash>) -> (h: crate::crypto::Hash)
    ensures
        h@ == hash_chain(start@, hs@),
{
    let mut acc = copy_hash(start);
    let mut i: usize = 0;
    while i < hs.len()
        invariant
            0 <= i <= hs@.len(),
            acc@ == hash_chain(start@, hs@.take(i as int)),
        decreases hs@.len() - i,
    {
        acc = poseidon256_pair(&acc, &hs[i]);
        assert(hs@.take(i + 1).drop_last() =~= hs@.take(i as int));
        i = i + 1;
    }
    assert(hs@.take(hs@.len() as int) =~= hs@);
    acc
}

/// The hash a proof of `input` carries (see `spec_proof_hash`).
pub fn proof_hash(input: &PlonkInput) -> (h: crate::crypto::Hash)
    ensures
        h@ == spec_proof_hash(*input),
{
    let zero: crate::crypto::Hash = [0u8; 32];
    assert(zero@ =~= Seq::new(32, |i: int| 0u8));
    let h1 = fold_hashes(&zero, &input.nullifiers);
    fold_hashes(&h1, &input.commitments)
}

/// Checkpoint of the chain state.
#[derive(Clone, Debug)]
pub struct Checkpoint {
    pub epoch: u64,
    pub block: u64,
    pub state_hash: [u8; 32],
    pub timestamp: u64,
}

/// Byte views of the values present among `modules`, in module order.
pub open spec fn present_values(modules: Seq<Option<Seq<u8>>>) -> Seq<Seq<u8>> {
    let a = if modules[0] is Some { seq![modules[0]->0] } else { Seq::empty() };
    let b = if modules[1] is Some { seq![modules[1]->0] } else { Seq::empty() };
    let c = if modules[2] is Some { seq![modules[2]->0] } else { Seq::empty() };
    a + b + c
}

/// Two of `vals` are both `h`.
pub open spec fn agreed(vals: Seq<Seq<u8>>, h: Seq<u8>) -> bool {
    exists|i: int, j: int| 0 <= i < j < vals.len() && vals[i] == h && vals[j] == h
}

/// Among at most three values, at most one value is agreed on.
proof fn lemma_agreement_unique(vals: Seq<Seq<u8>>, g: Seq<u8>, h: Seq<u8>)
    requires
        vals.len() <= 3,
        agreed(vals, g),
        agreed(vals, h),
    ensures
        g == h,
{
    let (i, j) = choose|i: int, j: int| 0 <= i < j < vals.len() && vals[i] == g && vals[j] == g;
    let (k, l) = choose|k: int, l: int| 0 <= k < l < vals.len() && vals[k] == h && vals[l] == h;
    assert(i == k || i == l || j == k || j == l);
}

/// Triple-modular-redundancy voter over three module results.
pub struct TmrVoter {
    modules: [Option<crate::crypto::Hash>; 3],
}

impl View for TmrVoter {
    type V = Seq<Option<Seq<u8>>>;

    closed spec fn view(&self) -> Seq<Option<Seq<u8>>> {
        Seq::new(
            3,
            |i: int|
                match self.modules@[i] {
                    Some(h) => Some(h@),
                    None => None,
                },
        )
    }
}

impl TmrVoter {
    /// The voter has one slot per module: three.
    pub proof fn lemma_view_len(&self)
        ensures
            self@.len() == 3,
    {
    }

    /// No module has reported.
    pub fn new() -> (v: Self)
        ensures
            v@ == seq![None::<Seq<u8>>, None, None],
    {
        let v = TmrVoter { modules: [None, None, None] };
        assert(v@ =~= seq![None::<Seq<u8>>, None, None]);
        v
    }

    /// Records module `module`'s result; modules beyond the third are ignored.
    pub fn set(&mut self, module: usize, value: crate::crypto::Hash)
        ensures
            final(self)@ == if module < 3 {
                old(self)@.update(module as int, Some(value@))
            } else {
                old(self)@
            },
    {
        if module < 3 {
            self.modules[module] = Some(value);
            assert(self@ =~= old(self)@.update(module as int, Some(value@)));
        }
    }

    /// The results present, in module order.
    fn present(&self) -> (vals: Vec<crate::crypto::Hash>)
        ensures
            vals@.len() <= 3,
            Seq::new(vals@.len(), |i: int| vals@[i]@) == present_values(self@),
    {
        let mut vals: Vec<crate::crypto::Hash> = Vec::new();
        let ghost v = self@;
        if let Some(h) = self.modules[0] {
            vals.push(h);
        }
        let ghost after0 = Seq::new(vals@.len(), |i: int| vals@[i]@);
        assert(after0 =~= if v[0] is Some { seq![v[0]->0] } else { Seq::empty() });
        if let Some(h) = self.modules[1] {
            vals.push(h);
        }
        let ghost after1 = Seq::new(vals@.len(), |i: int| vals@[i]@);
        assert(after1 =~= after0 + if v[1] is Some { seq![v[1]->0] } else { Seq::empty() });
        if let Some(h) = self.modules[2] {
            vals.push(h);
        }
        assert(Seq::new(vals@.len(), |i: int| vals@[i]@) =~= present_values(v));
        vals
    }

    /// The majority result: a value reported by at least two modules, if
    /// there is one (there is at most one).
    pub fn vote(&self) -> (r: Option<crate::crypto::Hash>)
        ensures
            match r {
                Some(h) => agreed(present_values(self@), h@) && forall|g: Seq<u8>|
                    agreed(present_values(self@), g) ==> g == h@,
                None => forall|g: Seq<u8>| !agreed(present_values(self@), g),
            },
    {
        let vals = self.present();
        let ghost pv = present_values(self@);
        let n = vals.len();
        if n < 2 {
            assert forall|g: Seq<u8>| !agreed(pv, g) by {
                assert(pv.len() < 2);
            }
            return None;
        }
        let mut i: usize = 0;
        while i < n
            invariant
                0 <= i <= n,
                n == vals@.len(),
                n <= 3,
                pv == present_values(self@),
                pv.len() == n,
                forall|k: int| 0 <= k < n ==> pv[k] == vals@[k]@,
                forall|a: int, b: int| 0 <= a < i && a < b < n ==> pv[a] != pv[b],
            decreases n - i,
        {
            let mut j: usize = i + 1;
            while j < n
                invariant
                    i < n,
                    i + 1 <= j <= n,
                    n == vals@.len(),
                    pv == present_values(self@),
                    n <= 3,
                    pv.len() == n,
                    forall|k: int| 0 <= k < n ==> pv[k] == vals@[k]@,
                    forall|b: int| i < b < j ==> pv[i as int] != pv[b],
                decreases n - j,
            {
                if hash_eq(&vals[i], &vals[j]) {
                    proof {
                        let h = vals@[i as int]@;
                        assert(0 <= i < j < pv.len() && pv[i as int] == h && pv[j as int] == h);
                        assert(agreed(pv, h));
                        assert forall|g: Seq<u8>| agreed(pv, g) implies g == vals@[i as int]@ by {
                            lemma_agreement_unique(pv, g, vals@[i as int]@);
                        }
                    }
                    return Some(vals[i]);
                }
                j = j + 1;
            }
            i = i + 1;
        }
        None
    }

    /// Modules have reported but no two agree.
    pub fn is_faulty(&self) -> (f: bool)
        ensures
            f == ((forall|g: Seq<u8>| !agreed(present_values(self@), g)) && present_values(
                self@,
            ).len() > 0),
    {
        let vals = self.present();
        proof {
            let pv = present_values(self@);
            if pv.len() == 0 {
                assert(Seq::new(vals@.len(), |i: int| vals@[i]@).len() == 0);
            }
        }
        self.vote().is_none() && vals.len() > 0
    }

    /// How many present results differ from `result`.
    pub fn mismatches(&self, result: &crate::crypto::Hash) -> (n: usize)
        ensures
            n == present_values(self@).filter(|h: Seq<u8>| h != result@).len(),
    {
        let vals = self.present();
        let ghost pv = present_values(self@);
        let ghost f = |h: Seq<u8>| h != result@;
        let mut count: usize = 0;
        let mut i: usize = 0;
        while i < vals.len()
            invariant
                0 <= i <= vals@.len(),
                vals@.len() <= 3,
                count <= i,
                pv.len() == vals@.len(),
                forall|k: int| 0 <= k < vals@.len() ==> pv[k] == vals@[k]@,
                f == (|h: Seq<u8>| h != result@),
                count == pv.take(i as int).filter(f).len(),
            decreases vals@.len() - i,
        {
            proof {
                let before = pv.take(i as int).filter(f);
                reveal(Seq::filter);
                assert(pv.take(i + 1).drop_last() =~= pv.take(i as int));
                assert(pv.take(i + 1).last() == pv[i as int]);
                assert(pv.take(i + 1).filter(f) == if f(pv[i as int]) {
                    before.push(pv[i as int])
                } else {
                    before
                });
                assert(f(pv[i as int]) == (vals@[i as int]@ != result@));
            }
            if !hash_eq(&vals[i], result) {
                count = count + 1;
            }
            i = i + 1;
        }
        assert(pv.take(vals@.len() as int) =~= pv);
        count
    }
}

/// Law: triple modular redundancy masks one faulty module. When two of the
/// three modules report `h`, the vote is `h`, whatever the third reports.
pub proof fn lemma_tmr_masks_one_fault(modules: Seq<Option<Seq<u8>>>, h: Seq<u8>, faulty: int)
    requires
        modules.len() == 3,
        0 <= faulty < 3,
        forall|i: int| 0 <= i < 3 && i != faulty ==> modules[i] == Some(h),
    ensures
        agreed(present_values(modules), h),
        forall|g: Seq<u8>| agreed(present_values(modules), g) ==> g == h,
{
    let pv = present_values(modules);
    assert(pv.len() >= 2 && pv.len() <= 3);
    if faulty == 0 {
        assert(pv[pv.len() - 2] == h && pv[pv.len() - 1] == h);
    } else if faulty == 1 {
        assert(pv[0] == h && pv[pv.len() - 1] == h);
    } else {
        assert(pv[0] == h && pv[1] == h);
    }
    assert forall|g: Seq<u8>| agreed(pv, g) implies g == h by {
        lemma_agreement_unique(pv, g, h);
    }
}

/// One TMR proof round: every module computes the proof hash of `input`
/// (with `inject_fault`, module 1's first byte is flipped, as a single-event
/// upset would), the voter takes the majority, and the round returns it with
/// the number of modules that disagreed.
pub fn tmr_round(voter: &mut TmrVoter, input: &PlonkInput, inject_fault: bool) -> (r: Option<
    (crate::crypto::Hash, usize),
>)
    ensures
        r matches Some((h, m)) && h@ == spec_proof_hash(*input) && m == (if inject_fault {
            1usize
        } else {
            0usize
        }),
        final(voter)@[0] == Some(spec_proof_hash(*input)),
        final(voter)@[2] == Some(spec_proof_hash(*input)),
        final(voter)@.len() == 3,
{
    let mut module: usize = 0;
    let ghost ph = spec_proof_hash(*input);
    let mut flipped: crate::crypto::Hash = [0u8; 32];
    while module < 3
        invariant
            0 <= module <= 3,
            voter@.len() == 3,
            ph == spec_proof_hash(*input),
            forall|k: int| 0 <= k < module && k != 1 ==> voter@[k] == Some(ph),
            module > 1 ==> voter@[1] == Some(flipped@),
            module > 1 ==> (inject_fault ==> flipped@ != ph) && (!inject_fault ==> flipped@ == ph),
        decreases 3 - module,
    {
        let mut hash = proof_hash(input);
        if inject_fault && module == 1 {
            let b = hash[0];
            hash[0] = b ^ 0xFF;
            assert(b ^ 0xFF != b) by (bit_vector);
            assert(hash@[0] != ph[0]);
        }
        if module == 1 {
            flipped = hash;
        }
        voter.set(module, hash);
        module = module + 1;
    }
    let ghost v = voter@;
    match voter.vote() {
        Some(result) => {
            proof {
                lemma_tmr_masks_one_fault(v, ph, 1);
            }
            assert(result@ == ph);
            let m = voter.mismatches(&result);
            proof {
                let pv = present_values(v);
                let f = |h: Seq<u8>| h != result@;
                reveal_with_fuel(Seq::filter, 4);
                assert(pv =~= seq![ph, flipped@, ph]);
                assert(pv.drop_last().drop_last().drop_last() =~= Seq::<Seq<u8>>::empty());
                assert(pv.drop_last().drop_last() =~= seq![ph]);
                assert(pv.drop_last() =~= seq![ph, flipped@]);
            }
            Some((result, m))
        },
        None => {
            proof {
                lemma_tmr_masks_one_fault(v, ph, 1);
            }
            None
        },
    }
}

/// Log of the most recent checkpoints, oldest first.
pub struct CheckpointLog {
    pub checkpoints: VecDeque<Checkpoint>,
    pub max_checkpoints: usize,
}

impl CheckpointLog {
    /// Empty log keeping at most ten checkpoints.
    pub fn new() -> (l: Self)
        ensures
            l.checkpoints@ == Seq::<Checkpoint>::empty(),
            l.max_checkpoints == 10,
    {
        CheckpointLog { checkpoints: VecDeque::with_capacity(10), max_checkpoints: 10 }
    }

    /// Records a checkpoint, dropping the oldest one when the log is full.
    pub fn create_checkpoint(&mut self, epoch: u64, block: u64, state_hash: [u8; 32], timestamp: u64)
        ensures
            final(self).max_checkpoints == old(self).max_checkpoints,
            final(self).checkpoints@ == (if old(self).checkpoints@.len() >= old(self).max_checkpoints
                && old(self).checkpoints@.len() > 0 {
                old(self).checkpoints@.skip(1)
            } else {
                old(self).checkpoints@
            }).push(Checkpoint { epoch, block, state_hash, timestamp }),
    {
        if self.checkpoints.len() >= self.max_checkpoints {
            let _ = self.checkpoints.pop_front();
        }
        self.checkpoints.push_back(Checkpoint { epoch, block, state_hash, timestamp });
        assert(old(self).checkpoints@.len() > 0 ==> old(self).checkpoints@.skip(1) =~= old(
            self,
        ).checkpoints@.subrange(1, old(self).checkpoints@.len() as int));
    }

    /// The most recent checkpoint, if any.
    pub fn restore_checkpoint(&self) -> (c: Option<&Checkpoint>)
        ensures
            match c {
                Some(cp) => self.checkpoints@.len() > 0 && *cp == self.checkpoints@.last(),
                None => self.checkpoints@.len() == 0,
            },
    {
        let n = self.checkpoints.len();
        if n == 0 {
            None
        } else {
            Some(&self.checkpoints[n - 1])
        }
    }
}

/// Law: the log restores the checkpoint last recorded, and a log within
/// its bound (of at least one) stays within it.
pub proof fn lemma_checkpoint_latest(log: Seq<Checkpoint>, max: nat, cp: Checkpoint)
    requires
        max >= 1,
        log.len() <= max,
    ensures
        ({
            let next = (if log.len() >= max && log.len() > 0 {
                log.skip(1)
            } else {
                log
            }).push(cp);
            &&& next.last() == cp
            &&& next.len() <= max
        }),
{
}

} // verus!
