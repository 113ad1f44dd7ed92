//! Multi-limb integers: little-endian sequences of 64-bit words and their values.
use vstd::prelude::*;

verus! {

/// 2^64, the base of a limb.
pub open spec fn limb_base() -> int {
    0x1_0000_0000_0000_0000
}

/// (2^64)^n.
pub open spec fn wpow(n: nat) -> int
    decreases n,
{
    if n == 0 {
        1
    } else {
        limb_base() * wpow((n - 1) as nat)
    }
}

/// Value of the lowest `n` limbs of `s` (limb 0 least significant).
pub open spec fn lsum(s: Seq<u64>, n: nat) -> int
    decreases n,
{
    if n == 0 {
        0
    } else {
        lsum(s, (n - 1) as nat) + s[n - 1] * wpow((n - 1) as nat)
    }
}

/// Powers of the limb base are positive.
pub proof fn lemma_wpow_pos(n: nat)
    ensures
        wpow(n) >= 1,
    decreases n,
{
    if n > 0 {
        lemma_wpow_pos((n - 1) as nat);
        assert(limb_base() * wpow((n - 1) as nat) >= 1) by (nonlinear_arith)
            requires
                wpow((n - 1) as nat) >= 1,
        ;
    }
}

/// Powers of the limb base multiply by adding exponents.
pub proof fn lemma_wpow_add(a: nat, b: nat)
    ensures
        wpow(a + b) == wpow(a) * wpow(b),
    decreases a,
{
    if a > 0 {
        lemma_wpow_add((a - 1) as nat, b);
        assert(wpow(a + b) == limb_base() * wpow((a - 1 + b) as nat));
        assert(limb_base() * (wpow((a - 1) as nat) * wpow(b)) == (limb_base() * wpow(
            (a - 1) as nat,
        )) * wpow(b)) by (nonlinear_arith);
    }
}

/// The first powers of the limb base.
pub proof fn lemma_wpow_small()
    ensures
        wpow(0) == 1,
        wpow(1) == 0x1_0000_0000_0000_0000,
        wpow(2) == 0x1_0000_0000_0000_0000_0000_0000_0000_0000,
        wpow(3) == 0x1_0000_0000_0000_0000_0000_0000_0000_0000_0000_0000_0000_0000,
        wpow(4) == 0x1_0000_0000_0000_0000_0000_0000_0000_0000_0000_0000_0000_0000_0000_0000_0000_0000,
        wpow(5) == 0x1_0000_0000_0000_0000_0000_0000_0000_0000_0000_0000_0000_0000_0000_0000_0000_0000_0000_0000_0000_0000,
        wpow(6) == 0x1_0000_0000_0000_0000_0000_0000_0000_0000_0000_0000_0000_0000_0000_0000_0000_0000_0000_0000_0000_0000_0000_0000_0000_0000,
        wpow(7) == 0x1_0000_0000_0000_0000_0000_0000_0000_0000_0000_0000_0000_0000_0000_0000_0000_0000_0000_0000_0000_0000_0000_0000_0000_0000_0000_0000_0000_0000,
        wpow(8) == 0x1_0000_0000_0000_0000_0000_0000_0000_0000_0000_0000_0000_0000_0000_0000_0000_0000_0000_0000_0000_0000_0000_0000_0000_0000_0000_0000_0000_0000_0000_0000_0000_0000,
{
    reveal_with_fuel(wpow, 9);
}

/// Changing limb `k < n` changes the value of the lowest `n` limbs by the
/// difference, scaled by the limb's weight.
pub proof fn lemma_lsum_update(s: Seq<u64>, n: nat, k: int, x: u64)
    requires
        0 <= k < n <= s.len(),
    ensures
        lsum(s.update(k, x), n) == lsum(s, n) + (x - s[k]) * wpow(k as nat),
    decreases n,
{
    let su = s.update(k, x);
    if k == n - 1 {
        lemma_lsum_unchanged(s, (n - 1) as nat, k, x);
        assert(su[n - 1] == x);
        assert(x * wpow(k as nat) - s[k] * wpow(k as nat) == (x - s[k]) * wpow(k as nat))
            by (nonlinear_arith);
    } else {
        lemma_lsum_update(s, (n - 1) as nat, k, x);
        assert(su[n - 1] == s[n - 1]);
    }
}

/// Limbs at or above `n` do not count in the value of the lowest `n` limbs.
pub proof fn lemma_lsum_unchanged(s: Seq<u64>, n: nat, k: int, x: u64)
    requires
        n <= k < s.len(),
    ensures
        lsum(s.update(k, x), n) == lsum(s, n),
    decreases n,
{
    if n > 0 {
        lemma_lsum_unchanged(s, (n - 1) as nat, k, x);
        assert(s.update(k, x)[n - 1] == s[n - 1]);
    }
}

/// The value of `n` limbs lies in [0, (2^64)^n).
pub proof fn lemma_lsum_bounds(s: Seq<u64>, n: nat)
    requires
        n <= s.len(),
    ensures
        0 <= lsum(s, n) < wpow(n),
    decreases n,
{
    if n > 0 {
        lemma_lsum_bounds(s, (n - 1) as nat);
        lemma_wpow_pos((n - 1) as nat);
        let w = wpow((n - 1) as nat);
        let l = lsum(s, (n - 1) as nat);
        let d = s[n - 1] as int;
        assert(0 <= l + d * w < limb_base() * w) by (nonlinear_arith)
            requires
                0 <= l < w,
                0 <= d < limb_base(),
                w >= 1,
        ;
    }
}

/// Values agree on the lowest `n` limbs when those limbs agree.
pub proof fn lemma_lsum_same_prefix(s: Seq<u64>, t: Seq<u64>, n: nat)
    requires
        n <= s.len(),
        n <= t.len(),
        forall|i: int| 0 <= i < n ==> s[i] == t[i],
    ensures
        lsum(s, n) == lsum(t, n),
    decreases n,
{
    if n > 0 {
        lemma_lsum_same_prefix(s, t, (n - 1) as nat);
    }
}

/// Splitting a value at limb `m`: the lower `m` limbs plus the weight of limb
/// `m` times the value of the limbs from `m` up.
pub proof fn lemma_lsum_split(s: Seq<u64>, m: nat, n: nat)
    requires
        m <= n <= s.len(),
    ensures
        lsum(s, n) == lsum(s, m) + wpow(m) * lsum(s.subrange(m as int, n as int), (n - m) as nat),
    decreases n,
{
    let hi = s.subrange(m as int, n as int);
    if n == m {
        assert(lsum(hi, 0) == 0);
    } else {
        lemma_lsum_split(s, m, (n - 1) as nat);
        let hi1 = s.subrange(m as int, (n - 1) as int);
        lemma_lsum_same_prefix(hi1, hi, (n - 1 - m) as nat);
        assert(hi[n - 1 - m] == s[n - 1]);
        lemma_wpow_add(m, (n - 1 - m) as nat);
        let a = wpow(m);
        let b = wpow((n - 1 - m) as nat);
        let l = lsum(hi1, (n - 1 - m) as nat);
        let d = s[n - 1] as int;
        assert(a * (l + d * b) == a * l + d * (a * b)) by (nonlinear_arith);
    }
}

/// Zero limbs have value zero.
pub proof fn lemma_lsum_zero(s: Seq<u64>, n: nat)
    requires
        n <= s.len(),
        forall|i: int| 0 <= i < n ==> s[i] == 0,
    ensures
        lsum(s, n) == 0,
    decreases n,
{
    if n > 0 {
        lemma_lsum_zero(s, (n - 1) as nat);
    }
}

} // verus!
