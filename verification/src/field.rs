//! 256-bit field arithmetic over the BN254 base field (four 64-bit limbs,
//! least significant first), as the FPGA host computes it.
use vstd::prelude::*;
use crate::limbs::{lsum, wpow, lemma_lsum_bounds, lemma_wpow_small, limb_base, lemma_lsum_update, lemma_lsum_unchanged, lemma_wpow_add, lemma_wpow_pos, lemma_lsum_split, lemma_lsum_same_prefix, lemma_lsum_zero};

verus! {

/// A 256-bit number as four little-endian 64-bit limbs.
#[derive(Clone, Copy, Debug, Default, PartialEq, Eq)]
pub struct Fe256 {
    pub d: [u64; 4],
}

/// A point in affine coordinates.
#[derive(Clone, Copy, Debug, Default, PartialEq, Eq)]
pub struct AffinePoint {
    pub x: Fe256,
    pub y: Fe256,
}

/// A point in projective (Jacobian) coordinates.
#[derive(Clone, Copy, Debug, Default, PartialEq, Eq)]
pub struct ProjPoint {
    pub x: Fe256,
    pub y: Fe256,
    pub z: Fe256,
}

/// 2^256.
pub open spec fn r256() -> int {
    0x1_0000_0000_0000_0000_0000_0000_0000_0000_0000_0000_0000_0000_0000_0000_0000_0000int
}

/// The BN254 base field prime p.
pub open spec fn p_value() -> int {
    0x30644e72e131a029b85045b68181585d97816a916871ca8d3c208c16d87cfd47int
}

impl Fe256 {
    /// The number the limbs stand for.
    pub open spec fn value(self) -> int {
        lsum(self.d@, 4)
    }
}

/// The value of an element lies in `[0, 2^256)`.
pub proof fn lemma_fe_value(a: Fe256)
    ensures
        a.value() == a.d[0] + 0x1_0000_0000_0000_0000int * a.d[1]
            + 0x1_0000_0000_0000_0000_0000_0000_0000_0000int * a.d[2]
            + 0x1_0000_0000_0000_0000_0000_0000_0000_0000_0000_0000_0000_0000int * a.d[3],
        0 <= a.value() < r256(),
{
    reveal_with_fuel(lsum, 5);
    lemma_wpow_small();
    lemma_lsum_bounds(a.d@, 4);
}

/// The modulus p as limbs.
pub fn modulus() -> (p: Fe256)
    ensures
        p.value() == p_value(),
        p.d[0] == 0x3c208c16d87cfd47u64,
        p.d[1] == 0x97816a916871ca8du64,
        p.d[2] == 0xb85045b68181585du64,
        p.d[3] == 0x30644e72e131a029u64,
{
    let p = Fe256 { d: [0x3c208c16d87cfd47u64, 0x97816a916871ca8du64, 0xb85045b68181585du64, 0x30644e72e131a029u64] };
    proof {
        lemma_fe_value(p);
    }
    p
}

/// Result value of `add_mod` on inputs of values `x` and `y`: the sum, less
/// p once when it reaches p, taken modulo 2^256.
pub open spec fn add_mod_value(x: int, y: int) -> int {
    let s = x + y;
    if s >= r256() {
        if s - r256() >= p_value() {
            s - r256() - p_value()
        } else {
            s - p_value()
        }
    } else if s >= p_value() {
        s - p_value()
    } else {
        s
    }
}

/// Result value of `sub_mod` on inputs of values `x` and `y`: the
/// difference, plus p when it is negative, taken modulo 2^256.
pub open spec fn sub_mod_value(x: int, y: int) -> int {
    if x >= y {
        x - y
    } else {
        (x - y + r256() + p_value()) % r256()
    }
}

fn add_limb(x: u64, y: u64) -> (r: (u64, bool))
    ensures
        r.0 + (if r.1 { 0x1_0000_0000_0000_0000int } else { 0 }) == x + y,
{
    let s = x.wrapping_add(y);
    (s, s < x)
}

fn sub_limb(x: u64, y: u64) -> (r: (u64, bool))
    ensures
        r.0 - (if r.1 { 0x1_0000_0000_0000_0000int } else { 0 }) == x - y,
{
    let s = x.wrapping_sub(y);
    (s, x < y)
}

/// 1 for `true`, 0 for `false`.
pub open spec fn bit(b: bool) -> int {
    if b {
        1
    } else {
        0
    }
}

/// Adds two limbs and an incoming carry: the low word and the carry out.
fn add_limb_carry(x: u64, y: u64, c: bool) -> (r: (u64, bool))
    ensures
        r.0 + bit(r.1) * limb_base() == x + y + bit(c),
{
    let (u, k1) = add_limb(x, y);
    let (s, k2) = add_limb(u, if c { 1u64 } else { 0u64 });
    (s, k1 || k2)
}

/// Subtracts a limb and an incoming borrow: the low word and the borrow out.
fn sub_limb_borrow(x: u64, y: u64, c: bool) -> (r: (u64, bool))
    ensures
        r.0 - bit(r.1) * limb_base() == x - y - bit(c),
{
    let (u, k1) = sub_limb(x, y);
    let (s, k2) = sub_limb(u, if c { 1u64 } else { 0u64 });
    (s, k1 || k2)
}

impl Fe256 {
    /// a + b, returning the low 256 bits and the carry out.
    pub fn add_raw(a: &Fe256, b: &Fe256) -> (r: (Fe256, bool))
        ensures
            r.0.value() + bit(r.1) * r256() == a.value() + b.value(),
    {
        let (s0, k0) = add_limb(a.d[0], b.d[0]);
        let (s1, k1) = add_limb_carry(a.d[1], b.d[1], k0);
        let (s2, k2) = add_limb_carry(a.d[2], b.d[2], k1);
        let (s3, k3) = add_limb_carry(a.d[3], b.d[3], k2);
        let c = Fe256 { d: [s0, s1, s2, s3] };
        proof {
            lemma_fe_value(*a);
            lemma_fe_value(*b);
            lemma_fe_value(c);
        }
        (c, k3)
    }

    /// a - b, returning the low 256 bits and the borrow out; the borrow is
    /// set exactly when a < b.
    pub fn sub_raw(a: &Fe256, b: &Fe256) -> (r: (Fe256, bool))
        ensures
            r.0.value() - bit(r.1) * r256() == a.value() - b.value(),
            r.1 == (a.value() < b.value()),
    {
        let (s0, k0) = sub_limb(a.d[0], b.d[0]);
        let (s1, k1) = sub_limb_borrow(a.d[1], b.d[1], k0);
        let (s2, k2) = sub_limb_borrow(a.d[2], b.d[2], k1);
        let (s3, k3) = sub_limb_borrow(a.d[3], b.d[3], k2);
        let c = Fe256 { d: [s0, s1, s2, s3] };
        proof {
            lemma_fe_value(*a);
            lemma_fe_value(*b);
            lemma_fe_value(c);
        }
        (c, k3)
    }

    /// a + b mod p. On reduced inputs (both below p) this is addition
    /// modulo p; on others, `add_mod_value`.
    pub fn add_mod(a: &Fe256, b: &Fe256) -> (c: Fe256)
        ensures
            c.value() == add_mod_value(a.value(), b.value()),
            a.value() < p_value() && b.value() < p_value() ==> c.value() == (a.value()
                + b.value()) % p_value(),
    {
        let p = modulus();
        let (mut c, carry) = Self::add_raw(a, b);
        proof {
            lemma_fe_value(c);
        }
        if carry {
            let (c2, _) = Self::sub_raw(&c, &p);
            proof {
                lemma_fe_value(c2);
                lemma_fe_value(*a);
                lemma_fe_value(*b);
            }
            c = c2;
        } else {
            let (d, borrow) = Self::sub_raw(&c, &p);
            proof {
                lemma_fe_value(d);
            }
            if !borrow {
                let (c2, _) = Self::sub_raw(&c, &p);
                proof {
                    lemma_fe_value(c2);
                }
                c = c2;
            }
        }
        proof {
            lemma_fe_value(*a);
            lemma_fe_value(*b);
            if a.value() < p_value() && b.value() < p_value() {
                lemma_add_mod_reduced(a.value(), b.value());
            }
        }
        c
    }

    /// a - b mod p. On reduced inputs (both below p) this is subtraction
    /// modulo p; on others, `sub_mod_value`.
    pub fn sub_mod(a: &Fe256, b: &Fe256) -> (c: Fe256)
        ensures
            c.value() == sub_mod_value(a.value(), b.value()),
            a.value() < p_value() && b.value() < p_value() ==> c.value() == (a.value()
                + p_value() - b.value()) % p_value(),
    {
        let p = modulus();
        let (c, borrow) = Self::sub_raw(a, b);
        proof {
            lemma_fe_value(c);
            lemma_fe_value(*a);
            lemma_fe_value(*b);
            if a.value() < p_value() && b.value() < p_value() {
                lemma_sub_mod_reduced(a.value(), b.value());
            }
        }
        if borrow {
            let r = Self::add_raw(&c, &p);
            proof {
                lemma_fe_value(r.0);
                let s = c.value() + p_value();
                assert(r.0.value() == s % r256()) by {
                    vstd::arithmetic::div_mod::lemma_fundamental_div_mod_converse(
                        s, r256(), bit(r.1), r.0.value());
                }
            }
            r.0
        } else {
            c
        }
    }

    /// Whether all limbs are zero.
    pub fn is_zero(&self) -> (z: bool)
        ensures
            z == (self.d[0] == 0 && self.d[1] == 0 && self.d[2] == 0 && self.d[3] == 0),
    {
        self.d[0] == 0 && self.d[1] == 0 && self.d[2] == 0 && self.d[3] == 0
    }
}

/// One step of schoolbook multiplication: limb `k = i + j` of the running
/// product absorbs `a_i * b_j` and the incoming carry.
proof fn lemma_mul_step(
    tk: int, lo: int, hi: int, carry: int, s0: int, c0: int, s1: int, c1: int,
    ai: int, bj: int,
)
    requires
        0 <= tk < limb_base(),
        0 <= carry < limb_base(),
        0 <= ai < limb_base(),
        0 <= bj < limb_base(),
        0 <= s1 < limb_base(),
        0 <= lo,
        0 <= hi,
        0 <= c0 <= 1,
        0 <= c1 <= 1,
        hi * limb_base() + lo == ai * bj,
        s0 + c0 * limb_base() == tk + lo,
        s1 + c1 * limb_base() == s0 + carry,
    ensures
        hi + c0 + c1 < limb_base(),
        s1 + (hi + c0 + c1) * limb_base() == tk + carry + ai * bj,
{
    assert(ai * bj <= (limb_base() - 1) * (limb_base() - 1)) by (nonlinear_arith)
        requires
            0 <= ai < limb_base(),
            0 <= bj < limb_base(),
    ;
    let w = limb_base();
    assert(s1 + (hi + c0 + c1) * w == tk + carry + ai * bj) by (nonlinear_arith)
        requires
            hi * w + lo == ai * bj,
            s0 + c0 * w == tk + lo,
            s1 + c1 * w == s0 + carry,
    ;
    assert(hi + c0 + c1 < w) by (nonlinear_arith)
        requires
            s1 + (hi + c0 + c1) * w == tk + carry + ai * bj,
            ai * bj <= (w - 1) * (w - 1),
            0 <= s1,
            tk <= w - 1,
            carry <= w - 1,
            w > 0,
    ;
}

/// The value bookkeeping of that step, scaled to the limb's weight.
proof fn lemma_mul_step_value(
    t_old: int, t_new: int, tk: int, s1: int, carry: int, carry2: int, ai: int, bj: int,
    wi: int, wj: int, pa: int, bb: int, lb: int,
)
    requires
        t_new == t_old + (s1 - tk) * (wi * wj),
        s1 + carry2 * limb_base() == tk + carry + ai * bj,
        t_old + carry * (wi * wj) == pa * bb + ai * lb * wi,
    ensures
        t_new + carry2 * (limb_base() * (wi * wj)) == pa * bb + ai * (lb + bj * wj) * wi,
{
    let x = wi * wj;
    let l = limb_base();
    assert(carry2 * (l * x) == (carry2 * l) * x) by (nonlinear_arith);
    assert((s1 - tk) * x + (carry2 * l) * x == (s1 - tk + carry2 * l) * x) by (nonlinear_arith);
    assert(s1 - tk + carry2 * l == carry + ai * bj);
    assert((carry + ai * bj) * x == carry * x + (ai * bj) * x) by (nonlinear_arith);
    assert((ai * bj) * x == ai * (bj * wj) * wi) by (nonlinear_arith)
        requires
            x == wi * wj,
    ;
    assert(ai * lb * wi + ai * (bj * wj) * wi == ai * (lb + bj * wj) * wi) by (nonlinear_arith);
}

impl Fe256 {
    /// Full 64 x 64 -> 128-bit product, as (high word, low word).
    pub fn mul128(a: u64, b: u64) -> (r: (u64, u64))
        ensures
            r.0 * limb_base() + r.1 == a * b,
    {
        assert((a as u128) * (b as u128) <= 0xffff_ffff_ffff_fffe_0000_0000_0000_0001u128)
            by (nonlinear_arith);
        let prod: u128 = (a as u128) * (b as u128);
        let hi: u128 = prod / 0x1_0000_0000_0000_0000u128;
        let lo: u128 = prod % 0x1_0000_0000_0000_0000u128;
        assert(hi < 0x1_0000_0000_0000_0000u128);
        (hi as u64, lo as u64)
    }

    /// Full 256 x 256 -> 512-bit product, as eight little-endian limbs.
    pub fn mul_raw(a: &Fe256, b: &Fe256) -> (t: [u64; 8])
        ensures
            lsum(t@, 8) == a.value() * b.value(),
    {
        let mut t = [0u64; 8];
        let ghost bv = b.value();
        proof {
            assert(forall|k: int| 0 <= k < 8 ==> t@[k] == 0);
            lemma_lsum_zero(t@, 8);
            assert(lsum(a.d@, 0) == 0);
        }
        let mut i: usize = 0;
        while i < 4
            invariant
                0 <= i <= 4,
                t@.len() == 8,
                bv == b.value(),
                lsum(t@, 8) == lsum(a.d@, i as nat) * bv,
                forall|k: int| i + 4 <= k < 8 ==> t@[k] == 0,
            decreases 4 - i,
        {
            let mut carry: u64 = 0;
            let mut j: usize = 0;
            let ghost wi = wpow(i as nat);
            while j < 4
                invariant
                    0 <= i < 4,
                    0 <= j <= 4,
                    t@.len() == 8,
                    bv == b.value(),
                    wi == wpow(i as nat),
                    lsum(t@, 8) + carry * wpow((i + j) as nat) == lsum(a.d@, i as nat) * bv
                        + a.d[i as int] * lsum(b.d@, j as nat) * wi,
                    forall|k: int| i + 4 <= k < 8 ==> t@[k] == 0,
                decreases 4 - j,
            {
                let k = i + j;
                let (hi, lo) = Self::mul128(a.d[i], b.d[j]);
                let tk = t[k];
                let (s0, c0) = add_limb(tk, lo);
                let (s1, c1) = add_limb(s0, carry);
                let ghost t_old = t@;
                proof {
                    lemma_mul_step(tk as int, lo as int, hi as int, carry as int, s0 as int,
                        bit(c0), s1 as int, bit(c1), a.d[i as int] as int, b.d[j as int] as int);
                }
                t[k] = s1;
                let carry2 = hi + if c0 { 1u64 } else { 0u64 } + if c1 { 1u64 } else { 0u64 };
                proof {
                    assert(t@ == t_old.update(k as int, s1));
                    lemma_lsum_update(t_old, 8, k as int, s1);
                    lemma_wpow_add(i as nat, j as nat);
                    lemma_mul_step_value(lsum(t_old, 8), lsum(t@, 8), tk as int, s1 as int,
                        carry as int, carry2 as int, a.d[i as int] as int, b.d[j as int] as int,
                        wi, wpow(j as nat), lsum(a.d@, i as nat), bv, lsum(b.d@, j as nat));
                    assert(wpow((i + j + 1) as nat) == limb_base() * wpow((i + j) as nat));
                    assert(lsum(b.d@, (j + 1) as nat) == lsum(b.d@, j as nat) + b.d[j as int] * wpow(j as nat));
                }
                carry = carry2;
                j = j + 1;
            }
            let ghost t_old = t@;
            proof {
                assert(t_old[i + 4] == 0);
                lemma_lsum_update(t_old, 8, (i + 4) as int, carry);
                assert(lsum(a.d@, (i + 1) as nat) == lsum(a.d@, i as nat) + a.d[i as int] * wi);
                assert(lsum(b.d@, 4) == bv);
                assert(lsum(a.d@, i as nat) * bv + a.d[i as int] * bv * wi == (lsum(a.d@, i as nat) + a.d[i as int] * wi) * bv) by (nonlinear_arith);
            }
            t[i + 4] = t[i + 4].wrapping_add(carry);
            i = i + 1;
        }
        t
    }
}

/// -p^{-1} mod 2^64.
pub open spec fn np_value() -> int {
    0x87d20782e4866389
}

/// Montgomery factor of row `i`: limb `i` of `t` times -p^{-1}, mod 2^64.
spec fn row_factor(t: int, i: nat) -> int {
    ((t / wpow(i)) % limb_base() * np_value()) % limb_base()
}

/// The running value of the word-by-word Montgomery reduction of `t` after
/// its first `n` rows: row `i` adds the multiple of p * 2^(64 i) that clears
/// limb `i`.
spec fn redc_rows(t: int, n: nat) -> int
    decreases n,
{
    if n == 0 {
        t
    } else {
        let v = redc_rows(t, (n - 1) as nat);
        v + row_factor(v, (n - 1) as nat) * p_value() * wpow((n - 1) as nat)
    }
}

/// `r` is a Montgomery product of `x` and `y`: a number below 2^256 whose
/// product with 2^256 is congruent to `x * y` modulo p, and which is below p
/// when `x * y < 2^256 * p` (in particular when `x` and `y` are below p).
pub open spec fn is_mont_product(x: int, y: int, r: int) -> bool {
    &&& 0 <= r < r256()
    &&& (r * r256()) % p_value() == (x * y) % p_value()
    &&& x * y < r256() * p_value() ==> r < p_value()
}

/// -p^{-1} mod 2^256.
pub open spec fn np256() -> int {
    0xf57a22b791888c6bd8afcbd01833da809ede7d651eca6ac987d20782e4866389int
}

/// Montgomery reduction of `t`: with m = t * (-p^{-1}) mod 2^256, the
/// quotient (t + m p) / 2^256, less p once when it reaches p.
pub open spec fn mont_reduce(t: int) -> int {
    let m = (t * np256()) % r256();
    let q = (t + m * p_value()) / r256();
    if q >= p_value() {
        q - p_value()
    } else {
        q
    }
}

/// Limb `i` of a limb array is its value's base-2^64 digit `i`.
proof fn lemma_limb_digit(s: Seq<u64>, n: nat, i: nat)
    requires
        i < n,
        s.len() == n,
    ensures
        s[i as int] == (lsum(s, n) / wpow(i)) % limb_base(),
        lsum(s, n) % wpow(i) == lsum(s, i),
{
    lemma_lsum_split(s, i, n);
    let hi = s.subrange(i as int, n as int);
    lemma_lsum_split(hi, 1, (n - i) as nat);
    let hi2 = hi.subrange(1, (n - i) as int);
    lemma_lsum_bounds(s, i);
    lemma_lsum_bounds(hi2, (n - 1 - i) as nat);
    lemma_wpow_pos(i);
    assert(lsum(hi, 1) == hi[0]) by {
        reveal_with_fuel(lsum, 2);
        assert(wpow(0) == 1);
        assert(lsum(hi, 0) == 0);
        assert(lsum(hi, 1) == lsum(hi, 0) + hi[0] * wpow(0));
    }
    assert(wpow(1) == limb_base()) by {
        lemma_wpow_small();
    }
    let q = lsum(hi, (n - i) as nat);
    let h2 = lsum(hi2, (n - 1 - i) as nat);
    assert(wpow(i) * q == q * wpow(i)) by (nonlinear_arith);
    assert(limb_base() * h2 == h2 * limb_base()) by (nonlinear_arith);
    vstd::arithmetic::div_mod::lemma_fundamental_div_mod_converse(lsum(s, n), wpow(i), q, lsum(s, i));
    vstd::arithmetic::div_mod::lemma_fundamental_div_mod_converse(q, limb_base(), h2, hi[0] as int);
}

proof fn lemma_np_inverse()
    ensures
        (np_value() * p_value()) % limb_base() == limb_base() - 1,
{
    assert((np_value() * p_value()) % limb_base() == limb_base() - 1) by (nonlinear_arith);
}

/// Adding `m * p * W^n`, with `m` the row factor, clears limb `n`.
proof fn lemma_row_clears_limb(v: int, n: nat)
    requires
        v >= 0,
        v % wpow(n) == 0,
    ensures
        (v + row_factor(v, n) * p_value() * wpow(n)) % wpow(n + 1) == 0,
{
    let w = limb_base();
    let wn = wpow(n);
    lemma_wpow_pos(n);
    let q = v / wn;
    vstd::arithmetic::div_mod::lemma_fundamental_div_mod(v, wn);
    assert(v == wn * q);
    let tn = q % w;
    let m = row_factor(v, n);
    assert(m == (tn * np_value()) % w);
    // (q + m p) % w == 0
    vstd::arithmetic::div_mod::lemma_mul_mod_noop_left(tn * np_value(), p_value(), w);
    assert((m * p_value()) % w == (tn * np_value() * p_value()) % w);
    assert(tn * np_value() * p_value() == tn * (np_value() * p_value())) by (nonlinear_arith);
    vstd::arithmetic::div_mod::lemma_mul_mod_noop_right(tn, np_value() * p_value(), w);
    lemma_np_inverse();
    assert(tn * (w - 1) == w * tn + (-tn)) by (nonlinear_arith);
    vstd::arithmetic::div_mod::lemma_mod_multiples_vanish(tn, -tn, w);
    assert((m * p_value()) % w == (-tn) % w);
    vstd::arithmetic::div_mod::lemma_add_mod_noop(q, m * p_value(), w);
    vstd::arithmetic::div_mod::lemma_add_mod_noop(q, -tn, w);
    vstd::arithmetic::div_mod::lemma_fundamental_div_mod(q, w);
    assert(q - tn == w * (q / w));
    vstd::arithmetic::div_mod::lemma_mod_multiples_basic(q / w, w);
    assert((q / w) * w == w * (q / w)) by (nonlinear_arith);
    assert((q + m * p_value()) % w == 0);
    let k = (q + m * p_value()) / w;
    vstd::arithmetic::div_mod::lemma_fundamental_div_mod(q + m * p_value(), w);
    lemma_wpow_add(n, 1);
    assert(wpow(1) == w) by {
        lemma_wpow_small();
    }
    assert(v + m * p_value() * wn == (k * (wn * w))) by (nonlinear_arith)
        requires
            v == wn * q,
            q + m * p_value() == w * k,
    ;
    vstd::arithmetic::div_mod::lemma_mod_multiples_basic(k, wn * w);
}

/// After `n` rows the running value is a multiple of 2^(64 n), congruent to
/// `t` modulo p, and exceeds `t` by less than 2^(64 n) * p.
proof fn lemma_redc_rows(t: int, n: nat)
    requires
        t >= 0,
    ensures
        redc_rows(t, n) % wpow(n) == 0,
        redc_rows(t, n) % p_value() == t % p_value(),
        t <= redc_rows(t, n) <= t + (wpow(n) - 1) * p_value(),
    decreases n,
{
    if n == 0 {
        assert(wpow(0) == 1);
    } else {
        let k = (n - 1) as nat;
        lemma_redc_rows(t, k);
        let v = redc_rows(t, k);
        let m = row_factor(v, k);
        let x = m * p_value() * wpow(k);
        lemma_wpow_pos(k);
        lemma_wpow_pos(n);
        assert(0 <= m < limb_base());
        assert(x >= 0) by (nonlinear_arith)
            requires
                x == m * p_value() * wpow(k),
                m >= 0,
                wpow(k) >= 1,
        ;
        assert(redc_rows(t, n) == v + x);
        assert(x == p_value() * (m * wpow(k))) by (nonlinear_arith)
            requires
                x == m * p_value() * wpow(k),
        ;
        vstd::arithmetic::div_mod::lemma_mod_multiples_vanish(m * wpow(k), v, p_value());
        lemma_row_clears_limb(v, k);
        lemma_wpow_add(k, 1);
        assert(wpow(1) == limb_base()) by {
            lemma_wpow_small();
        }
        assert(v + x <= t + (wpow(n) - 1) * p_value()) by (nonlinear_arith)
            requires
                v <= t + (wpow(k) - 1) * p_value(),
                x == m * p_value() * wpow(k),
                m <= limb_base() - 1,
                wpow(n) == wpow(k) * limb_base(),
                p_value() > 0,
                wpow(k) >= 1,
        ;
    }
}

/// The rows add `ms * p` in all, for some `ms` below 2^(64 n).
proof fn lemma_redc_rows_sum(t: int, n: nat) -> (ms: int)
    ensures
        redc_rows(t, n) == t + p_value() * ms,
        0 <= ms < wpow(n),
    decreases n,
{
    if n == 0 {
        assert(wpow(0) == 1);
        0
    } else {
        let k = (n - 1) as nat;
        let ms0 = lemma_redc_rows_sum(t, k);
        let v = redc_rows(t, k);
        let m = row_factor(v, k);
        let wk = wpow(k);
        lemma_wpow_pos(k);
        assert(0 <= m < limb_base());
        assert(wpow(n) == limb_base() * wk);
        let ms = ms0 + m * wk;
        assert(redc_rows(t, n) == t + p_value() * ms) by (nonlinear_arith)
            requires
                redc_rows(t, n) == v + m * p_value() * wk,
                v == t + p_value() * ms0,
                ms == ms0 + m * wk,
        ;
        assert(0 <= ms < wpow(n)) by (nonlinear_arith)
            requires
                0 <= ms0 < wk,
                0 <= m < limb_base(),
                ms == ms0 + m * wk,
                wpow(n) == limb_base() * wk,
        ;
        ms
    }
}

/// -p^{-1} is the inverse of -p modulo 2^256.
proof fn lemma_np256_inverse()
    ensures
        (np256() * p_value()) % r256() == r256() - 1,
{
    assert((np256() * p_value()) % r256() == r256() - 1) by (nonlinear_arith);
}

/// The multiple of p below 2^256 that makes `t + ms * p` divisible by 2^256
/// is the Montgomery factor of `t`.
proof fn lemma_mont_factor_unique(t: int, ms: int)
    requires
        0 <= ms < r256(),
        (t + p_value() * ms) % r256() == 0,
    ensures
        ms == (t * np256()) % r256(),
{
    let rr = r256();
    let np = np256();
    let pp = p_value();
    lemma_np256_inverse();
    vstd::arithmetic::div_mod::lemma_fundamental_div_mod(t + pp * ms, rr);
    let k = (t + pp * ms) / rr;
    vstd::arithmetic::div_mod::lemma_fundamental_div_mod(np * pp, rr);
    let u = (np * pp) / rr;
    assert(t * np == ms + rr * (k * np - ms * (u + 1))) by (nonlinear_arith)
        requires
            t + pp * ms == rr * k,
            np * pp == rr * u + (rr - 1),
    ;
    vstd::arithmetic::div_mod::lemma_fundamental_div_mod_converse(t * np, rr, k * np - ms * (u + 1), ms);
}

/// The reduction of `x * y` divided by 2^256, less p once when it reaches p,
/// is a Montgomery product of `x` and `y`.
proof fn lemma_redc_result(x: int, y: int, q: int)
    requires
        0 <= x < r256(),
        0 <= y < r256(),
        q * r256() == redc_rows(x * y, 4),
    ensures
        0 <= q < r256() + p_value(),
        is_mont_product(x, y, if q >= p_value() { q - p_value() } else { q }),
        mont_reduce(x * y) == if q >= p_value() { q - p_value() } else { q },
{
    let t = x * y;
    let rr = r256();
    assert(0 <= t < rr * rr) by (nonlinear_arith)
        requires
            0 <= x < rr,
            0 <= y < rr,
            t == x * y,
    ;
    lemma_redc_rows(t, 4);
    lemma_wpow_small();
    let v = redc_rows(t, 4);
    assert(0 <= q < rr + p_value()) by (nonlinear_arith)
        requires
            q * rr == v,
            0 <= t <= v,
            v <= t + (rr - 1) * p_value(),
            t < rr * rr,
            rr > 0,
            p_value() > 0,
    ;
    let kk: int = if q >= p_value() { 1 } else { 0 };
    let res = q - kk * p_value();
    assert(res * rr == v + p_value() * (-kk * rr)) by (nonlinear_arith)
        requires
            res == q - kk * p_value(),
            q * rr == v,
    ;
    vstd::arithmetic::div_mod::lemma_mod_multiples_vanish(-kk * rr, v, p_value());
    assert(p_value() * (-kk * rr) + v == res * rr);
    let ms = lemma_redc_rows_sum(t, 4);
    assert(v % rr == 0);
    lemma_mont_factor_unique(t, ms);
    assert(t + ms * p_value() == v) by (nonlinear_arith)
        requires
            v == t + p_value() * ms,
    ;
    vstd::arithmetic::div_mod::lemma_fundamental_div_mod_converse(v, rr, q, 0);
    if t < rr * p_value() {
        assert(q < 2 * p_value()) by (nonlinear_arith)
            requires
                q * rr == v,
                v <= t + (rr - 1) * p_value(),
                t < rr * p_value(),
                rr > 0,
                p_value() > 0,
        ;
    }
}

impl Fe256 {
    /// Montgomery multiplication: the Montgomery reduction of a * b, which
    /// is a * b * 2^-256 mod p as `is_mont_product` states it. Every carry of
    /// the reduction is kept, so the result is the reduced product on all
    /// reduced inputs.
    #[verifier::rlimit(60)]
    pub fn mont_mul(a: &Fe256, b: &Fe256) -> (r: Fe256)
        ensures
            r.value() == mont_reduce(a.value() * b.value()),
            is_mont_product(a.value(), b.value(), r.value()),
    {
        let p = modulus();
        let t8 = Self::mul_raw(a, b);
        let mut t: [u64; 9] = [t8[0], t8[1], t8[2], t8[3], t8[4], t8[5], t8[6], t8[7], 0u64];
        let ghost ab = a.value() * b.value();
        proof {
            lemma_fe_value(p);
            lemma_fe_value(*a);
            lemma_fe_value(*b);
            assert(t@.len() == 9);
            lemma_lsum_same_prefix(t8@, t@, 8);
            assert(lsum(t@, 9) == lsum(t@, 8) + t@[8] * wpow(8));
            assert(0 <= ab) by (nonlinear_arith)
                requires
                    ab == a.value() * b.value(),
                    a.value() >= 0,
                    b.value() >= 0,
            ;
            assert(ab < r256() * r256()) by (nonlinear_arith)
                requires
                    ab == a.value() * b.value(),
                    0 <= a.value() < r256(),
                    0 <= b.value() < r256(),
            ;
        }
        let mut i: usize = 0;
        while i < 4
            invariant
                0 <= i <= 4,
                t@.len() == 9,
                p.value() == p_value(),
                p.d[0] == 0x3c208c16d87cfd47u64,
                p.d[1] == 0x97816a916871ca8du64,
                p.d[2] == 0xb85045b68181585du64,
                p.d[3] == 0x30644e72e131a029u64,
                0 <= ab < r256() * r256(),
                lsum(t@, 9) == redc_rows(ab, i as nat),
            decreases 4 - i,
        {
            let ghost t_row = t@;
            let ghost tv = lsum(t_row, 9);
            proof {
                lemma_limb_digit(t_row, 9, i as nat);
            }
            let m = t[i].wrapping_mul(0x87d20782e4866389u64);
            assert(m == row_factor(tv, i as nat));
            let mut carry: u64 = 0;
            let mut j: usize = 0;
            let ghost wi = wpow(i as nat);
            proof {
                assert(lsum(p.d@, 0) == 0);
                assert(m * lsum(p.d@, 0) * wi == 0) by (nonlinear_arith)
                    requires
                        lsum(p.d@, 0) == 0,
                ;
                assert(i + 0 == i);
            }
            while j < 4
                invariant
                    0 <= i < 4,
                    0 <= j <= 4,
                    t@.len() == 9,
                    wi == wpow(i as nat),
                    p.d[0] == 0x3c208c16d87cfd47u64,
                    p.d[1] == 0x97816a916871ca8du64,
                    p.d[2] == 0xb85045b68181585du64,
                    p.d[3] == 0x30644e72e131a029u64,
                    lsum(t@, 9) + carry * wpow((i + j) as nat) == tv * 1 + m * lsum(p.d@, j as nat) * wi,
                decreases 4 - j,
            {
                let k = i + j;
                let (hi, lo) = Self::mul128(m, p.d[j]);
                let tk = t[k];
                let (s0, c0) = add_limb(tk, lo);
                let (s1, c1) = add_limb(s0, carry);
                let ghost t_old = t@;
                proof {
                    lemma_mul_step(tk as int, lo as int, hi as int, carry as int, s0 as int,
                        bit(c0), s1 as int, bit(c1), m as int, p.d[j as int] as int);
                }
                t[k] = s1;
                let carry2 = hi + if c0 { 1u64 } else { 0u64 } + if c1 { 1u64 } else { 0u64 };
                proof {
                    assert(t@ == t_old.update(k as int, s1));
                    lemma_lsum_update(t_old, 9, k as int, s1);
                    lemma_wpow_add(i as nat, j as nat);
                    lemma_mul_step_value(lsum(t_old, 9), lsum(t@, 9), tk as int, s1 as int,
                        carry as int, carry2 as int, m as int, p.d[j as int] as int,
                        wi, wpow(j as nat), tv, 1, lsum(p.d@, j as nat));
                    assert(wpow((i + j + 1) as nat) == limb_base() * wpow((i + j) as nat));
                    assert(lsum(p.d@, (j + 1) as nat) == lsum(p.d@, j as nat) + p.d[j as int] * wpow(j as nat));
                }
                carry = carry2;
                j = j + 1;
            }
            let ghost x = m * p_value() * wi;
            assert(lsum(p.d@, 4) == p_value());
            assert(m * lsum(p.d@, 4) * wi == x);
            let mut k: usize = i + 4;
            while k < 9
                invariant
                    0 <= i < 4,
                    i + 4 <= k <= 9,
                    t@.len() == 9,
                    lsum(t@, 9) + carry * wpow(k as nat) == tv + x,
                decreases 9 - k,
            {
                let ghost t_old = t@;
                let (s, c) = add_limb(t[k], carry);
                t[k] = s;
                proof {
                    assert(t@ == t_old.update(k as int, s));
                    lemma_lsum_update(t_old, 9, k as int, s);
                    assert(wpow((k + 1) as nat) == limb_base() * wpow(k as nat));
                    assert(lsum(t@, 9) + bit(c) * wpow((k + 1) as nat) == tv + x) by (nonlinear_arith)
                        requires
                            lsum(t@, 9) == lsum(t_old, 9) + (s - t_old[k as int]) * wpow(k as nat),
                            lsum(t_old, 9) + carry * wpow(k as nat) == tv + x,
                            s + bit(c) * limb_base() == t_old[k as int] + carry,
                            wpow((k + 1) as nat) == limb_base() * wpow(k as nat),
                    ;
                }
                carry = if c { 1u64 } else { 0u64 };
                k = k + 1;
            }
            proof {
                assert(redc_rows(ab, (i + 1) as nat) == tv + x);
                lemma_redc_rows(ab, (i + 1) as nat);
                lemma_wpow_small();
                lemma_wpow_add((i + 1) as nat, (3 - i) as nat);
                lemma_wpow_pos((3 - i) as nat);
                lemma_wpow_pos((i + 1) as nat);
                assert(wpow((i + 1) as nat) <= wpow(4)) by (nonlinear_arith)
                    requires
                        wpow(4) == wpow((i + 1) as nat) * wpow((3 - i) as nat),
                        wpow((3 - i) as nat) >= 1,
                        wpow((i + 1) as nat) >= 1,
                ;
                assert(wpow(9) == limb_base() * wpow(8));
                lemma_lsum_bounds(t@, 9);
                assert(tv + x < wpow(9));
                assert(k == 9);
                let w9 = wpow(9);
                lemma_wpow_pos(9);
                assert(carry == 0) by (nonlinear_arith)
                    requires
                        w9 >= 1,
                        lsum(t@, 9) >= 0,
                        lsum(t@, 9) + carry * w9 == tv + x,
                        tv + x < w9,
                        carry >= 0,
                ;
            }
            i = i + 1;
        }
        let res = Fe256 { d: [t[4], t[5], t[6], t[7]] };
        let top = t[8];
        let ghost q = lsum(t@.subrange(4, 9), 5);
        proof {
            let v = lsum(t@, 9);
            lemma_redc_rows(ab, 4);
            lemma_wpow_small();
            lemma_lsum_split(t@, 4, 9);
            lemma_lsum_bounds(t@, 4);
            let sub = t@.subrange(4, 9);
            assert(wpow(4) * q == q * wpow(4)) by (nonlinear_arith);
            vstd::arithmetic::div_mod::lemma_fundamental_div_mod_converse(v, wpow(4), q, lsum(t@, 4));
            assert(lsum(sub, 5) == lsum(sub, 4) + sub[4] * wpow(4));
            lemma_lsum_same_prefix(sub, res.d@, 4);
            lemma_fe_value(res);
            assert(q == res.value() + top * r256());
            assert(q * r256() == v);
            lemma_redc_result(a.value(), b.value(), q);
        }
        let (d, borrow) = Self::sub_raw(&res, &p);
        proof {
            lemma_fe_value(d);
        }
        if top != 0 || !borrow {
            d
        } else {
            res
        }
    }
}

/// Law: on reduced inputs the Montgomery product is determined. It is below
/// p, and it is the only number below 2^256 whose product with 2^256 is
/// congruent to x * y modulo p and which is below p.
pub proof fn lemma_mont_product_reduced(x: int, y: int, r: int, r2: int)
    requires
        0 <= x < p_value(),
        0 <= y < p_value(),
        is_mont_product(x, y, r),
        is_mont_product(x, y, r2),
    ensures
        r < p_value(),
        r == r2,
{
    let pp = p_value();
    let rr = r256();
    assert(x * y < rr * pp) by (nonlinear_arith)
        requires
            0 <= x < pp,
            0 <= y < pp,
            pp < rr,
    ;
    // 2^256 * rinv = 1 (mod p)
    let rinv = 0x2e67157159e5c639cf63e9cfb74492d9eb2022850278edf8ed84884a014afa37int;
    assert((r256() * 0x2e67157159e5c639cf63e9cfb74492d9eb2022850278edf8ed84884a014afa37int)
        % p_value() == 1) by (nonlinear_arith);
    vstd::arithmetic::div_mod::lemma_fundamental_div_mod(rr * rinv, pp);
    let u = (rr * rinv) / pp;
    let c = (x * y) % pp;
    vstd::arithmetic::div_mod::lemma_fundamental_div_mod(r * rr, pp);
    vstd::arithmetic::div_mod::lemma_fundamental_div_mod(r2 * rr, pp);
    let a = (r * rr) / pp;
    let b = (r2 * rr) / pp;
    let z = rinv * (a - b) - u * (r - r2);
    assert(r - r2 == pp * z) by (nonlinear_arith)
        requires
            r * rr == pp * a + c,
            r2 * rr == pp * b + c,
            rr * rinv == pp * u + 1,
            z == rinv * (a - b) - u * (r - r2),
    ;
    assert(z == 0) by (nonlinear_arith)
        requires
            r - r2 == pp * z,
            -pp < r - r2 < pp,
            pp > 0,
    ;
}

impl Fe256 {
    /// All limbs zero.
    pub open spec fn spec_is_zero(self) -> bool {
        self.d[0] == 0 && self.d[1] == 0 && self.d[2] == 0 && self.d[3] == 0
    }

    /// The element 0.
    pub fn zero() -> (z: Fe256)
        ensures
            z.spec_is_zero(),
            z.value() == 0,
    {
        let z = Fe256 { d: [0u64, 0u64, 0u64, 0u64] };
        proof {
            lemma_fe_value(z);
        }
        z
    }

    /// The element 1.
    pub fn one() -> (o: Fe256)
        ensures
            o.d@ == seq![1u64, 0u64, 0u64, 0u64],
            o.value() == 1,
    {
        let o = Fe256 { d: [1u64, 0u64, 0u64, 0u64] };
        proof {
            lemma_fe_value(o);
            assert(o.d@ =~= seq![1u64, 0u64, 0u64, 0u64]);
        }
        o
    }
}

/// An affine point lifted to projective coordinates with z = 1.
pub open spec fn lift(p: AffinePoint) -> ProjPoint {
    ProjPoint { x: p.x, y: p.y, z: Fe256 { d: [1u64, 0u64, 0u64, 0u64] } }
}

/// The projective point with all coordinates zero.
pub open spec fn proj_zero() -> ProjPoint {
    ProjPoint {
        x: Fe256 { d: [0u64, 0u64, 0u64, 0u64] },
        y: Fe256 { d: [0u64, 0u64, 0u64, 0u64] },
        z: Fe256 { d: [0u64, 0u64, 0u64, 0u64] },
    }
}

/// Mixed addition stub: a point at infinity (z = 0) becomes the affine point;
/// any other accumulator is left as it is.
pub fn ec_add_mixed(r: &mut ProjPoint, p: &AffinePoint)
    ensures
        old(r).z.spec_is_zero() ==> *final(r) == lift(*p),
        !old(r).z.spec_is_zero() ==> *final(r) == *old(r),
{
    if r.z.is_zero() {
        r.x = p.x;
        r.y = p.y;
        r.z = Fe256 { d: [1u64, 0u64, 0u64, 0u64] };
    }
}

/// Index of the first of the first `n` scalars, from `from` on, that is not
/// zero; `n` when there is none.
pub open spec fn first_nonzero(scalars: Seq<Fe256>, from: int, n: int) -> int
    decreases n - from,
{
    if from >= n {
        n
    } else if !scalars[from].spec_is_zero() {
        from
    } else {
        first_nonzero(scalars, from + 1, n)
    }
}

proof fn lemma_first_nonzero(scalars: Seq<Fe256>, from: int, n: int)
    requires
        0 <= from <= n,
    ensures
        from <= first_nonzero(scalars, from, n) <= n,
        first_nonzero(scalars, from, n) < n ==> !scalars[first_nonzero(scalars, from, n)].spec_is_zero(),
        forall|k: int| from <= k < first_nonzero(scalars, from, n) ==> scalars[k].spec_is_zero(),
    decreases n - from,
{
    if from < n && scalars[from].spec_is_zero() {
        lemma_first_nonzero(scalars, from + 1, n);
    }
}

/// Software stand-in for the F1 host: the same operations on the CPU.
pub struct MockHost;

impl MockHost {
    /// A host with nothing loaded.
    pub fn new() -> (h: Self) {
        MockHost
    }

    /// Loading a bitstream always succeeds.
    pub fn init(&self, _xclbin: &str) -> (r: Result<(), i32>)
        ensures
            r is Ok,
    {
        Ok(())
    }

    /// Element-wise Montgomery products of the two slices, as far as the shorter reaches.
    pub fn fe_mul_batch(&self, a: &[Fe256], b: &[Fe256]) -> (c: Vec<Fe256>)
        ensures
            c@.len() == if a@.len() < b@.len() { a@.len() } else { b@.len() },
            forall|i: int| 0 <= i < c@.len() ==> #[trigger] c@[i].value() == mont_reduce(a@[i].value() * b@[i].value())
                && is_mont_product(a@[i].value(), b@[i].value(), c@[i].value()),
    {
        let n = if a.len() < b.len() { a.len() } else { b.len() };
        let mut c: Vec<Fe256> = Vec::with_capacity(n);
        let mut i: usize = 0;
        while i < n
            invariant
                0 <= i <= n,
                n <= a@.len(),
                n <= b@.len(),
                c@.len() == i,
                forall|k: int| 0 <= k < i ==> #[trigger] c@[k].value() == mont_reduce(a@[k].value() * b@[k].value())
                    && is_mont_product(a@[k].value(), b@[k].value(), c@[k].value()),
            decreases n - i,
        {
            c.push(Fe256::mont_mul(&a[i], &b[i]));
            i = i + 1;
        }
        c
    }

    /// The number-theoretic transform is not modelled: the data is left as it is.
    pub fn ntt(&self, _data: &mut [Fe256], _twiddles: &[Fe256], _log_n: u32)
        ensures
            final(_data)@ == old(_data)@,
    {
    }

    /// Multi-scalar multiplication stub: the first point whose scalar is not
    /// zero, lifted with z = 1; the zero point when every scalar is zero.
    pub fn msm(&self, points: &[AffinePoint], scalars: &[Fe256]) -> (r: ProjPoint)
        ensures
            ({
                let n = if points@.len() < scalars@.len() { points@.len() as int } else { scalars@.len() as int };
                let f = first_nonzero(scalars@, 0, n);
                r == if f < n { lift(points@[f]) } else { proj_zero() }
            }),
    {
        let n = if points.len() < scalars.len() { points.len() } else { scalars.len() };
        let mut res = ProjPoint {
            x: Fe256 { d: [0u64, 0u64, 0u64, 0u64] },
            y: Fe256 { d: [0u64, 0u64, 0u64, 0u64] },
            z: Fe256 { d: [0u64, 0u64, 0u64, 0u64] },
        };
        let ghost f = first_nonzero(scalars@, 0, n as int);
        proof {
            lemma_first_nonzero(scalars@, 0, n as int);
        }
        let mut i: usize = 0;
        while i < n
            invariant
                0 <= i <= n,
                n <= points@.len(),
                n <= scalars@.len(),
                0 <= f <= n,
                f < n ==> !scalars@[f].spec_is_zero(),
                forall|k: int| 0 <= k < f ==> scalars@[k].spec_is_zero(),
                i <= f ==> res == proj_zero(),
                i > f ==> res == lift(points@[f]),
            decreases n - i,
        {
            if !scalars[i].is_zero() {
                ec_add_mixed(&mut res, &points[i]);
            }
            i = i + 1;
        }
        res
    }
}

impl Default for MockHost {
    fn default() -> (h: Self) {
        MockHost
    }
}

/// F1 accelerator handle on a host without the FPGA runtime: every
/// operation runs on the software host.
pub struct F1Accelerator {
    mock: MockHost,
}

impl Default for F1Accelerator {
    fn default() -> (a: Self) {
        F1Accelerator { mock: MockHost }
    }
}

impl F1Accelerator {
    /// A handle with nothing loaded.
    pub fn new() -> (a: Self) {
        F1Accelerator { mock: MockHost::new() }
    }

    /// Loading a bitstream always succeeds.
    pub fn init(&self, xclbin_path: &str) -> (r: Result<(), i32>)
        ensures
            r is Ok,
    {
        self.mock.init(xclbin_path)
    }

    /// Element-wise Montgomery products of the two slices, as far as the shorter reaches.
    pub fn fe_mul_batch(&self, a: &[Fe256], b: &[Fe256]) -> (c: Vec<Fe256>)
        ensures
            c@.len() == if a@.len() < b@.len() { a@.len() } else { b@.len() },
            forall|i: int| 0 <= i < c@.len() ==> #[trigger] c@[i].value() == mont_reduce(a@[i].value() * b@[i].value())
                && is_mont_product(a@[i].value(), b@[i].value(), c@[i].value()),
    {
        self.mock.fe_mul_batch(a, b)
    }

    /// The number-theoretic transform is not modelled: the data is left as it is.
    pub fn ntt(&self, data: &mut [Fe256], twiddles: &[Fe256], log_n: u32)
        ensures
            final(data)@ == old(data)@,
    {
        self.mock.ntt(data, twiddles, log_n)
    }
}

/// PLONK prover on the F1 accelerator.
pub struct AwsF1Prover {
    accel: F1Accelerator,
}

impl AwsF1Prover {
    /// A prover over a fresh accelerator handle.
    pub fn new() -> Self {
        AwsF1Prover { accel: F1Accelerator::new() }
    }

    /// Loads the bitstream on the accelerator.
    pub fn init(&self, xclbin: &str) -> (r: Result<(), i32>)
        ensures
            r is Ok,
    {
        self.accel.init(xclbin)
    }

    /// Placeholder proof: 32 zero bytes, whatever the circuit and witness.
    pub fn prove(&self, circuit: &[u8], witness: &[u8]) -> (proof: Vec<u8>)
        ensures
            proof@ == Seq::new(32, |i: int| 0u8),
    {
        let proof = vec![0u8; 32];
        assert(proof@ =~= Seq::new(32, |i: int| 0u8));
        proof
    }
}

/// The value of an element determines its limbs.
pub proof fn lemma_value_determines_limbs(a: Fe256, b: Fe256)
    requires
        a.value() == b.value(),
    ensures
        a == b,
{
    lemma_fe_value(a);
    lemma_fe_value(b);
    let w = limb_base();
    let a2 = a.d[2] + w * a.d[3];
    let b2 = b.d[2] + w * b.d[3];
    let a1 = a.d[1] + w * a2;
    let b1 = b.d[1] + w * b2;
    assert(a.value() == a1 * w + a.d[0]);
    assert(b.value() == b1 * w + b.d[0]);
    vstd::arithmetic::div_mod::lemma_fundamental_div_mod_converse(a.value(), w, a1, a.d[0] as int);
    vstd::arithmetic::div_mod::lemma_fundamental_div_mod_converse(b.value(), w, b1, b.d[0] as int);
    vstd::arithmetic::div_mod::lemma_fundamental_div_mod_converse(a1, w, a2, a.d[1] as int);
    vstd::arithmetic::div_mod::lemma_fundamental_div_mod_converse(b1, w, b2, b.d[1] as int);
    vstd::arithmetic::div_mod::lemma_fundamental_div_mod_converse(a2, w, a.d[3] as int, a.d[2] as int);
    vstd::arithmetic::div_mod::lemma_fundamental_div_mod_converse(b2, w, b.d[3] as int, b.d[2] as int);
    assert(a.d@ =~= b.d@);
    assert(a.d == b.d);
}

/// Law: on reduced inputs, adding back what was subtracted gives the first
/// input again, and addition does not depend on the order of its inputs.
pub proof fn lemma_sub_then_add(x: int, y: int)
    requires
        0 <= x < p_value(),
        0 <= y < p_value(),
    ensures
        add_mod_value(sub_mod_value(x, y), y) == x,
        add_mod_value(x, y) == add_mod_value(y, x),
{
    lemma_sub_mod_reduced(x, y);
    let d = sub_mod_value(x, y);
    lemma_add_mod_reduced(d, y);
    if x >= y {
        assert(d == x - y);
    } else {
        assert(d == x - y + p_value()) by {
            vstd::arithmetic::div_mod::lemma_fundamental_div_mod_converse(x + p_value() - y, p_value(), 0, x + p_value() - y);
        }
        vstd::arithmetic::div_mod::lemma_fundamental_div_mod_converse(d + y, p_value(), 1, x);
    }
}

/// Law: on reduced inputs, `add_mod` is addition modulo p.
pub proof fn lemma_add_mod_reduced(x: int, y: int)
    requires
        0 <= x < p_value(),
        0 <= y < p_value(),
    ensures
        add_mod_value(x, y) == (x + y) % p_value(),
        0 <= add_mod_value(x, y) < p_value(),
{
    let s = x + y;
    if s >= p_value() {
        vstd::arithmetic::div_mod::lemma_fundamental_div_mod_converse(s, p_value(), 1, s - p_value());
    } else {
        vstd::arithmetic::div_mod::lemma_fundamental_div_mod_converse(s, p_value(), 0, s);
    }
}

/// Law: on reduced inputs, `sub_mod` is subtraction modulo p.
pub proof fn lemma_sub_mod_reduced(x: int, y: int)
    requires
        0 <= x < p_value(),
        0 <= y < p_value(),
    ensures
        sub_mod_value(x, y) == (x + p_value() - y) % p_value(),
        0 <= sub_mod_value(x, y) < p_value(),
{
    if x >= y {
        vstd::arithmetic::div_mod::lemma_fundamental_div_mod_converse(x + p_value() - y, p_value(), 1, x - y);
    } else {
        let d = x - y + p_value();
        vstd::arithmetic::div_mod::lemma_fundamental_div_mod_converse(d + r256(), r256(), 1, d);
        vstd::arithmetic::div_mod::lemma_fundamental_div_mod_converse(x + p_value() - y, p_value(), 0, d);
    }
}

} // verus!
