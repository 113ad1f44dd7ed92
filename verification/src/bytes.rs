use vstd::prelude::*;

verus! {

/// The `n` least significant base-256 digits of `x`, least significant first.
pub open spec fn le_bytes(x: nat, n: nat) -> Seq<u8>
    decreases n,
{
    if n == 0 {
        Seq::empty()
    } else {
        seq![(x % 256) as u8] + le_bytes(x / 256, (n - 1) as nat)
    }
}

/// The `n` least significant base-256 digits of `x`, most significant first.
pub open spec fn be_bytes(x: nat, n: nat) -> Seq<u8>
    decreases n,
{
    if n == 0 {
        Seq::empty()
    } else {
        be_bytes(x / 256, (n - 1) as nat) + seq![(x % 256) as u8]
    }
}

/// The number whose base-256 digits, most significant first, are `s`.
pub open spec fn be_value(s: Seq<u8>) -> nat
    decreases s.len(),
{
    if s.len() == 0 {
        0
    } else {
        (be_value(s.drop_last()) * 256 + s.last()) as nat
    }
}

/// The byte strings `f(s[0])`, `f(s[1])`, ... joined in order.
pub open spec fn concat_map<T>(s: Seq<T>, f: spec_fn(T) -> Seq<u8>) -> Seq<u8>
    decreases s.len(),
{
    if s.len() == 0 {
        Seq::empty()
    } else {
        concat_map(s.drop_last(), f) + f(s.last())
    }
}

/// One more item extends the joined bytes by that item's bytes.
pub proof fn lemma_concat_map_step<T>(s: Seq<T>, f: spec_fn(T) -> Seq<u8>, i: int)
    requires
        0 <= i < s.len(),
    ensures
        concat_map(s.take(i + 1), f) == concat_map(s.take(i), f) + f(s[i]),
{
    assert(s.take(i + 1).drop_last() =~= s.take(i));
}

/// Appends the eight little-endian bytes of `x` to `out`.
pub fn push_u64_le(out: &mut Vec<u8>, x: u64)
    ensures
        final(out)@ == old(out)@ + le_bytes(x as nat, 8),
{
    let ghost start = out@;
    let mut v: u64 = x;
    let mut i: usize = 0;
    while i < 8
        invariant
            0 <= i <= 8,
            out@ + le_bytes(v as nat, (8 - i) as nat) == start + le_bytes(x as nat, 8),
        decreases 8 - i,
    {
        let ghost before = out@;
        let ghost vv = v as nat;
        out.push((v % 256) as u8);
        v = v / 256;
        assert(le_bytes(vv, (8 - i) as nat) == seq![(vv % 256) as u8] + le_bytes(vv / 256, (
        8 - i - 1) as nat));
        assert(out@ + le_bytes(v as nat, (8 - i - 1) as nat) == before + le_bytes(vv, (8
            - i) as nat));
        i = i + 1;
    }
    assert(le_bytes(v as nat, 0) == Seq::<u8>::empty());
    assert(out@ + Seq::<u8>::empty() == out@);
}

} // verus!
