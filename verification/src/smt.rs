//! Sorted-leaf Merkle tree over 32-byte keys: the root is the pairwise
//! Poseidon hash of the keys in ascending byte order.
use vstd::prelude::*;
use crate::crypto::{poseidon, poseidon256_pair, hash_eq};

verus! {

/// Lexicographic order on byte strings, from position `i` on.
pub open spec fn lex_lt_from(a: Seq<u8>, b: Seq<u8>, i: int) -> bool
    decreases a.len() - i,
{
    if i < 0 || i >= a.len() || i >= b.len() {
        false
    } else if a[i] != b[i] {
        a[i] < b[i]
    } else {
        lex_lt_from(a, b, i + 1)
    }
}

/// `a` sorts strictly before `b` (for byte strings of equal length).
pub open spec fn lex_lt(a: Seq<u8>, b: Seq<u8>) -> bool {
    lex_lt_from(a, b, 0)
}

/// No byte string sorts before itself.
pub proof fn lemma_lex_irreflexive(a: Seq<u8>, i: int)
    requires
        0 <= i,
    ensures
        !lex_lt_from(a, a, i),
    decreases a.len() - i,
{
    if i < a.len() {
        lemma_lex_irreflexive(a, i + 1);
    }
}

/// The byte order is transitive.
pub proof fn lemma_lex_transitive(a: Seq<u8>, b: Seq<u8>, c: Seq<u8>, i: int)
    requires
        0 <= i,
        a.len() == b.len(),
        b.len() == c.len(),
        lex_lt_from(a, b, i),
        lex_lt_from(b, c, i),
    ensures
        lex_lt_from(a, c, i),
    decreases a.len() - i,
{
    if i < a.len() && a[i] == b[i] && b[i] == c[i] {
        lemma_lex_transitive(a, b, c, i + 1);
    }
}

/// Two byte strings do not sort before each other.
pub proof fn lemma_lex_asymmetric(a: Seq<u8>, b: Seq<u8>, i: int)
    requires
        0 <= i,
        lex_lt_from(a, b, i),
    ensures
        !lex_lt_from(b, a, i),
    decreases a.len() - i,
{
    if i < a.len() && i < b.len() && a[i] == b[i] {
        lemma_lex_asymmetric(a, b, i + 1);
    }
}

/// Neither before the other: equal from `i` on.
pub proof fn lemma_lex_total(a: Seq<u8>, b: Seq<u8>, i: int)
    requires
        0 <= i <= a.len(),
        a.len() == b.len(),
        !lex_lt_from(a, b, i),
        !lex_lt_from(b, a, i),
    ensures
        forall|k: int| i <= k < a.len() ==> a[k] == b[k],
    decreases a.len() - i,
{
    if i < a.len() {
        lemma_lex_total(a, b, i + 1);
    }
}

/// Of two 32-byte strings, one sorts first or they are equal.
pub proof fn lemma_lex_trichotomy(a: Seq<u8>, b: Seq<u8>)
    requires
        a.len() == b.len(),
        a != b,
    ensures
        lex_lt(a, b) || lex_lt(b, a),
{
    if !lex_lt(a, b) && !lex_lt(b, a) {
        lemma_lex_total(a, b, 0);
        assert(a =~= b);
    }
}

/// Whether hash `a` sorts strictly before hash `b`.
pub fn hash_lt(a: &crate::crypto::Hash, b: &crate::crypto::Hash) -> (r: bool)
    ensures
        r == lex_lt(a@, b@),
{
    let mut i: usize = 0;
    while i < 32
        invariant
            0 <= i <= 32,
            a@.len() == 32,
            b@.len() == 32,
            lex_lt(a@, b@) == lex_lt_from(a@, b@, i as int),
        decreases 32 - i,
    {
        if a[i] != b[i] {
            return a[i] < b[i];
        }
        i = i + 1;
    }
    false
}

/// One level up: adjacent pairs hashed together, an odd last node carried up.
pub open spec fn pair_level(level: Seq<Seq<u8>>) -> Seq<Seq<u8>> {
    Seq::new(
        ((level.len() + 1) / 2) as nat,
        |j: int|
            if 2 * j + 1 < level.len() {
                poseidon(level[2 * j] + level[2 * j + 1])
            } else {
                level[2 * j]
            },
    )
}

/// 32 zero bytes: the root of an empty tree.
pub open spec fn zero_hash() -> Seq<u8> {
    Seq::new(32, |i: int| 0u8)
}

/// Root over a level of nodes: pair up until one node is left.
pub open spec fn merkle_root(level: Seq<Seq<u8>>) -> Seq<u8>
    decreases level.len(),
{
    if level.len() == 0 {
        zero_hash()
    } else if level.len() == 1 {
        level[0]
    } else {
        merkle_root(pair_level(level))
    }
}

/// Strictly ascending.
pub open spec fn sorted_keys(keys: Seq<Seq<u8>>) -> bool {
    forall|i: int, j: int| 0 <= i < j < keys.len() ==> lex_lt(#[trigger] keys[i], #[trigger] keys[j])
}

/// Two strictly ascending sequences of 32-byte keys with the same members are
/// the same sequence.
pub proof fn lemma_sorted_unique(s: Seq<Seq<u8>>, t: Seq<Seq<u8>>)
    requires
        sorted_keys(s),
        sorted_keys(t),
        forall|i: int| 0 <= i < s.len() ==> (#[trigger] s[i]).len() == 32,
        forall|i: int| 0 <= i < t.len() ==> (#[trigger] t[i]).len() == 32,
        forall|k: Seq<u8>| s.contains(k) <==> t.contains(k),
    ensures
        s == t,
    decreases s.len() + t.len(),
{
    if s.len() == 0 {
        if t.len() > 0 {
            assert(t.contains(t[0]));
        }
        assert(s =~= t);
    } else if t.len() == 0 {
        assert(s.contains(s[0]));
    } else {
        // the first elements are the least members of the same set
        assert(s.contains(s[0]));
        assert(t.contains(t[0]));
        let js = choose|j: int| 0 <= j < s.len() && s[j] == t[0];
        let jt = choose|j: int| 0 <= j < t.len() && t[j] == s[0];
        if s[0] != t[0] {
            if js > 0 {
                assert(lex_lt(s[0], s[js]));
            }
            if jt > 0 {
                assert(lex_lt(t[0], t[jt]));
            }
            lemma_lex_asymmetric(s[0], t[0], 0);
        }
        assert(s[0] == t[0]);
        let s1 = s.drop_first();
        let t1 = t.drop_first();
        assert forall|k: Seq<u8>| s1.contains(k) <==> t1.contains(k) by {
            if s1.contains(k) {
                let a = choose|a: int| 0 <= a < s1.len() && s1[a] == k;
                assert(s.contains(k));
                assert(s[a + 1] == k);
                assert(lex_lt(s[0], s[a + 1]));
                lemma_lex_irreflexive(k, 0);
                assert(k != t[0]);
                let b = choose|b: int| 0 <= b < t.len() && t[b] == k;
                assert(b != 0);
                assert(t1[b - 1] == k);
            }
            if t1.contains(k) {
                let a = choose|a: int| 0 <= a < t1.len() && t1[a] == k;
                assert(t.contains(k));
                assert(t[a + 1] == k);
                assert(lex_lt(t[0], t[a + 1]));
                lemma_lex_irreflexive(k, 0);
                assert(k != s[0]);
                let b = choose|b: int| 0 <= b < s.len() && s[b] == k;
                assert(b != 0);
                assert(s1[b - 1] == k);
            }
        }
        lemma_sorted_unique(s1, t1);
        assert(s =~= seq![s[0]] + s1);
        assert(t =~= seq![t[0]] + t1);
    }
}

/// Sparse Merkle tree node.
#[derive(Clone, Debug, Default)]
pub struct SmtNode {
    pub left: Option<crate::crypto::Hash>,
    pub right: Option<crate::crypto::Hash>,
    pub value: Option<crate::crypto::Hash>,
}

/// Merkle tree whose leaves are kept in ascending key order.
#[derive(Clone, Debug)]
pub struct SparseMerkleTree {
    pub root: crate::crypto::Hash,
    leaves: Vec<(crate::crypto::Hash, crate::crypto::Hash)>,
}

/// Value stored under `k` among `leaves`, the first match.
pub open spec fn find_leaf(leaves: Seq<(crate::crypto::Hash, crate::crypto::Hash)>, k: Seq<u8>) -> Option<Seq<u8>>
    decreases leaves.len(),
{
    if leaves.len() == 0 {
        None
    } else if leaves[0].0@ == k {
        Some(leaves[0].1@)
    } else {
        find_leaf(leaves.drop_first(), k)
    }
}

/// The first stored entry under `k` is what the lookup finds.
pub proof fn lemma_find_leaf(leaves: Seq<(crate::crypto::Hash, crate::crypto::Hash)>, k: Seq<u8>)
    ensures
        find_leaf(leaves, k) is Some <==> exists|i: int| 0 <= i < leaves.len() && (#[trigger] leaves[i]).0@ == k,
        forall|i: int|
            0 <= i < leaves.len() && (#[trigger] leaves[i]).0@ == k && (forall|j: int|
                0 <= j < i ==> leaves[j].0@ != k) ==> find_leaf(leaves, k) == Some(leaves[i].1@),
    decreases leaves.len(),
{
    if leaves.len() > 0 {
        lemma_find_leaf(leaves.drop_first(), k);
        if leaves[0].0@ != k {
            assert forall|i: int|
                0 <= i < leaves.len() && (#[trigger] leaves[i]).0@ == k implies (i > 0
                && leaves.drop_first()[i - 1].0@ == k) by {}
            if find_leaf(leaves, k) is Some {
                let j = choose|j: int| 0 <= j < leaves.drop_first().len() && (#[trigger] leaves.drop_first()[j]).0@ == k;
                assert(leaves[j + 1].0@ == k);
            }
            assert forall|i: int|
                0 <= i < leaves.len() && (#[trigger] leaves[i]).0@ == k && (forall|j: int|
                    0 <= j < i ==> leaves[j].0@ != k) implies find_leaf(leaves, k) == Some(leaves[i].1@) by {
                assert(leaves.drop_first()[i - 1] == leaves[i]);
                assert forall|j: int| 0 <= j < i - 1 implies leaves.drop_first()[j].0@ != k by {
                    assert(leaves.drop_first()[j] == leaves[j + 1]);
                }
            }
        } else {
            assert(leaves[0].0@ == k);
        }
    }
}

impl SparseMerkleTree {
    /// Keys of the leaves, in stored order.
    pub closed spec fn keys(self) -> Seq<Seq<u8>> {
        Seq::new(self.leaves@.len(), |i: int| self.leaves@[i].0@)
    }

    /// Value stored under key `k`.
    pub closed spec fn lookup(self, k: Seq<u8>) -> Option<Seq<u8>> {
        find_leaf(self.leaves@, k)
    }

    /// Keys ascending and the root computed over them.
    pub closed spec fn well_formed(self) -> bool {
        &&& sorted_keys(self.keys())
        &&& self.root@ == merkle_root(self.keys())
    }

    /// Key set and root agree: every stored key is in the lookup.
    pub proof fn lemma_keys_lookup(self, k: Seq<u8>)
        ensures
            self.lookup(k) is Some <==> self.keys().contains(k),
    {
        lemma_find_leaf(self.leaves@, k);
        if self.keys().contains(k) {
            let i = choose|i: int| 0 <= i < self.keys().len() && self.keys()[i] == k;
            assert(self.leaves@[i].0@ == k);
        }
        if self.lookup(k) is Some {
            let i = choose|i: int| 0 <= i < self.leaves@.len() && (#[trigger] self.leaves@[i]).0@ == k;
            assert(self.keys()[i] == k);
        }
    }

    /// The invariant spelled out: the stored keys ascend and the stored root
    /// is the Merkle root over them.
    pub proof fn lemma_well_formed_root(self)
        ensures
            self.well_formed() <==> (sorted_keys(self.keys()) && self.root_bytes() == merkle_root(
                self.keys(),
            )),
    {
    }

    /// Bytes of the stored root.
    pub closed spec fn root_bytes(self) -> Seq<u8> {
        self.root@
    }


    /// The stored root.
    pub fn root_hash(&self) -> (r: crate::crypto::Hash)
        ensures
            r@ == self.root_bytes(),
    {
        self.root
    }

    /// Every stored key has 32 bytes.
    pub proof fn lemma_keys_len(self)
        ensures
            forall|i: int| 0 <= i < self.keys().len() ==> (#[trigger] self.keys()[i]).len() == 32,
    {
    }

    /// The empty tree, with the zero root.
    pub fn new() -> (t: Self)
        ensures
            t.well_formed(),
            forall|k: Seq<u8>| #[trigger] t.lookup(k) is None,
            t.keys().len() == 0,
    {
        let t = SparseMerkleTree { root: [0u8; 32], leaves: Vec::new() };
        assert(t.keys() =~= Seq::<Seq<u8>>::empty());
        assert(t.root@ =~= zero_hash());
        t
    }

    /// Position of the first stored key that does not sort before `key`.
    fn lower_bound(&self, key: &crate::crypto::Hash) -> (i: usize)
        requires
            sorted_keys(self.keys()),
        ensures
            i <= self.leaves@.len(),
            forall|j: int| 0 <= j < i ==> lex_lt(#[trigger] self.keys()[j], key@),
            i < self.leaves@.len() ==> !lex_lt(self.keys()[i as int], key@),
    {
        let n = self.leaves.len();
        let mut i: usize = 0;
        while i < n
            invariant
                0 <= i <= n,
                n == self.leaves@.len(),
                forall|j: int| 0 <= j < i ==> lex_lt(#[trigger] self.keys()[j], key@),
            decreases n - i,
        {
            if !hash_lt(&self.leaves[i].0, key) {
                return i;
            }
            i = i + 1;
        }
        i
    }

    /// Stores `value` under `key` (replacing what was there) and recomputes the root.
    pub fn insert(&mut self, key: &crate::crypto::Hash, value: &crate::crypto::Hash)
        requires
            old(self).well_formed(),
        ensures
            final(self).well_formed(),
            final(self).lookup(key@) == Some(value@),
            forall|k: Seq<u8>| k != key@ ==> #[trigger] final(self).lookup(k) == old(self).lookup(k),
    {
        let ghost old_leaves = self.leaves@;
        let ghost old_keys = self.keys();
        let n = self.leaves.len();
        let i = self.lower_bound(key);
        proof {
            assert forall|j: int| 0 <= j < i implies old_leaves[j].0@ != key@ by {
                assert(old_keys[j] == old_leaves[j].0@);
                assert(lex_lt(old_keys[j], key@));
                lemma_lex_irreflexive(key@, 0);
            }
        }
        if i < n && hash_eq(&self.leaves[i].0, key) {
            let v = *value;
            let k = self.leaves[i].0;
            self.leaves.set(i, (k, v));
            proof {
                assert(self.keys() =~= old_keys);
                lemma_replace_lookup(old_leaves, self.leaves@, key@, i as int);
            }
        } else {
            proof {
                if i < n {
                    lemma_lex_trichotomy(old_keys[i as int], key@);
                }
                lemma_sorted_insert(old_keys, key@, i as int);
            }
            self.leaves.insert(i, (*key, *value));
            proof {
                assert(self.keys() =~= old_keys.insert(i as int, key@));
                lemma_insert_lookup(old_leaves, self.leaves@, key@, i as int);
            }
        }
        self.recompute_root();
    }

    /// The value stored under `key`.
    pub fn get(&self, key: &crate::crypto::Hash) -> (r: Option<&crate::crypto::Hash>)
        ensures
            r is Some == self.lookup(key@) is Some,
            r is Some ==> r.unwrap()@ == self.lookup(key@).unwrap(),
    {
        let n = self.leaves.len();
        let mut i: usize = 0;
        while i < n
            invariant
                0 <= i <= n,
                n == self.leaves@.len(),
                forall|j: int| 0 <= j < i ==> self.leaves@[j].0@ != key@,
            decreases n - i,
        {
            if hash_eq(&self.leaves[i].0, key) {
                proof {
                    lemma_find_leaf(self.leaves@, key@);
                }
                return Some(&self.leaves[i].1);
            }
            i = i + 1;
        }
        proof {
            lemma_find_leaf(self.leaves@, key@);
        }
        None
    }

    /// Recomputes the root from the keys in ascending order.
    pub fn recompute_root(&mut self)
        requires
            sorted_keys(old(self).keys()),
        ensures
            final(self).well_formed(),
            final(self).keys() == old(self).keys(),
            forall|k: Seq<u8>| #[trigger] final(self).lookup(k) == old(self).lookup(k),
    {
        let n = self.leaves.len();
        let mut current: Vec<crate::crypto::Hash> = Vec::with_capacity(n);
        let mut i: usize = 0;
        while i < n
            invariant
                0 <= i <= n,
                n == self.leaves@.len(),
                current@.len() == i,
                forall|j: int| 0 <= j < i ==> (#[trigger] current@[j])@ == self.keys()[j],
            decreases n - i,
        {
            current.push(self.leaves[i].0);
            i = i + 1;
        }
        let ghost keys = self.keys();
        assert(current@.map_values(|h: crate::crypto::Hash| h@) =~= keys);
        while current.len() > 1
            invariant
                merkle_root(current@.map_values(|h: crate::crypto::Hash| h@)) == merkle_root(keys),
            decreases current@.len(),
        {
            let ghost level = current@.map_values(|h: crate::crypto::Hash| h@);
            let m = current.len();
            let mut next: Vec<crate::crypto::Hash> = Vec::with_capacity(m / 2 + 1);
            let mut j: usize = 0;
            while j < m - 1
                invariant
                    m == current@.len(),
                    m > 1,
                    level == current@.map_values(|h: crate::crypto::Hash| h@),
                    0 <= j <= m,
                    j % 2 == 0,
                    next@.len() == j / 2,
                    forall|q: int| 0 <= q < next@.len() ==> (#[trigger] next@[q])@ == pair_level(level)[q],
                decreases m - j,
            {
                let h = poseidon256_pair(&current[j], &current[j + 1]);
                next.push(h);
                j = j + 2;
            }
            if j < m {
                next.push(current[j]);
            }
            assert(next@.map_values(|h: crate::crypto::Hash| h@) =~= pair_level(level));
            current = next;
        }
        let ghost level = current@.map_values(|h: crate::crypto::Hash| h@);
        if current.len() == 0 {
            self.root = [0u8; 32];
            assert(self.root@ =~= zero_hash());
        } else {
            self.root = current[0];
            assert(level.len() == 1);
            assert(level[0] == current@[0]@);
        }
    }
}

proof fn lemma_sorted_insert(keys: Seq<Seq<u8>>, key: Seq<u8>, i: int)
    requires
        sorted_keys(keys),
        0 <= i <= keys.len(),
        key.len() == 32,
        forall|j: int| 0 <= j < keys.len() ==> (#[trigger] keys[j]).len() == 32,
        forall|j: int| 0 <= j < i ==> lex_lt(#[trigger] keys[j], key),
        i < keys.len() ==> lex_lt(key, keys[i]),
    ensures
        sorted_keys(keys.insert(i, key)),
{
    let nk = keys.insert(i, key);
    assert forall|j: int| i <= j < keys.len() implies lex_lt(key, #[trigger] keys[j]) by {
        if j > i {
            assert(lex_lt(keys[i], keys[j]));
            lemma_lex_transitive(key, keys[i], keys[j], 0);
        }
    }
    assert forall|a: int, b: int| 0 <= a < b < nk.len() implies lex_lt(#[trigger] nk[a], #[trigger] nk[b]) by {
        if b < i {
            assert(nk[a] == keys[a] && nk[b] == keys[b]);
        } else if a < i && b == i {
            assert(nk[a] == keys[a]);
        } else if a < i && b > i {
            assert(nk[a] == keys[a]);
            assert(nk[b] == keys[b - 1]);
            assert(lex_lt(keys[a], key));
            assert(lex_lt(key, keys[b - 1]));
            lemma_lex_transitive(keys[a], key, keys[b - 1], 0);
        } else if a == i {
            assert(nk[b] == keys[b - 1]);
        } else {
            assert(nk[a] == keys[a - 1]);
            assert(nk[b] == keys[b - 1]);
        }
    }
}

proof fn lemma_replace_lookup(a: Seq<(crate::crypto::Hash, crate::crypto::Hash)>, b: Seq<(crate::crypto::Hash, crate::crypto::Hash)>, key: Seq<u8>, i: int)
    requires
        a.len() == b.len(),
        0 <= i < a.len(),
        forall|j: int| 0 <= j < a.len() && j != i ==> a[j] == b[j],
        a[i].0@ == key,
        b[i].0@ == key,
        forall|j: int| 0 <= j < i ==> a[j].0@ != key,
    ensures
        find_leaf(b, key) == Some(b[i].1@),
        forall|k: Seq<u8>| k != key ==> #[trigger] find_leaf(b, k) == find_leaf(a, k),
{
    lemma_find_leaf(b, key);
    assert forall|k: Seq<u8>| k != key implies #[trigger] find_leaf(b, k) == find_leaf(a, k) by {
        lemma_find_leaf_same_keys(a, b, k, i);
    }
}

proof fn lemma_insert_lookup(a: Seq<(crate::crypto::Hash, crate::crypto::Hash)>, b: Seq<(crate::crypto::Hash, crate::crypto::Hash)>, key: Seq<u8>, i: int)
    requires
        0 <= i <= a.len(),
        b == a.insert(i, b[i]),
        b[i].0@ == key,
        forall|j: int| 0 <= j < i ==> a[j].0@ != key,
    ensures
        find_leaf(b, key) == Some(b[i].1@),
        forall|k: Seq<u8>| k != key ==> #[trigger] find_leaf(b, k) == find_leaf(a, k),
{
    lemma_find_leaf(b, key);
    assert forall|j: int| 0 <= j < i implies b[j].0@ != key by {
        assert(b[j] == a[j]);
    }
    assert forall|k: Seq<u8>| k != key implies #[trigger] find_leaf(b, k) == find_leaf(a, k) by {
        lemma_find_leaf_insert(a, b, k, i);
    }
}

proof fn lemma_find_leaf_same_keys(a: Seq<(crate::crypto::Hash, crate::crypto::Hash)>, b: Seq<(crate::crypto::Hash, crate::crypto::Hash)>, k: Seq<u8>, i: int)
    requires
        a.len() == b.len(),
        0 <= i < a.len(),
        forall|j: int| 0 <= j < a.len() && j != i ==> a[j] == b[j],
        a[i].0@ == b[i].0@,
        a[i].0@ != k,
    ensures
        find_leaf(a, k) == find_leaf(b, k),
    decreases a.len(),
{
    if a.len() > 0 {
        if i == 0 {
            assert(a.drop_first() =~= b.drop_first());
        } else {
            assert(a[0] == b[0]);
            lemma_find_leaf_same_keys(a.drop_first(), b.drop_first(), k, i - 1);
        }
    }
}

proof fn lemma_find_leaf_insert(a: Seq<(crate::crypto::Hash, crate::crypto::Hash)>, b: Seq<(crate::crypto::Hash, crate::crypto::Hash)>, k: Seq<u8>, i: int)
    requires
        0 <= i <= a.len(),
        b.len() == a.len() + 1,
        forall|j: int| 0 <= j < i ==> b[j] == a[j],
        forall|j: int| i < j < b.len() ==> b[j] == a[j - 1],
        b[i].0@ != k,
    ensures
        find_leaf(b, k) == find_leaf(a, k),
    decreases a.len(),
{
    if i == 0 {
        assert(b.drop_first() =~= a);
    } else {
        assert(a[0] == b[0]);
        lemma_find_leaf_insert(a.drop_first(), b.drop_first(), k, i - 1);
    }
}

/// The keys of `keys` listed in strictly ascending order (when `keys` is a
/// finite set of 32-byte strings there is exactly one such listing).
pub open spec fn sorted_listing(keys: Set<Seq<u8>>) -> Seq<Seq<u8>> {
    choose|s: Seq<Seq<u8>>|
        sorted_keys(s) && (forall|i: int| 0 <= i < s.len() ==> (#[trigger] s[i]).len() == 32)
            && (forall|k: Seq<u8>| #[trigger] s.contains(k) <==> keys.contains(k))
}

/// Root of the tree that stores exactly the keys of `keys`.
pub open spec fn set_root(keys: Set<Seq<u8>>) -> Seq<u8> {
    merkle_root(sorted_listing(keys))
}

impl SparseMerkleTree {
    /// The keys stored in the tree, as a set.
    pub open spec fn key_set(self) -> Set<Seq<u8>> {
        Set::new(|k: Seq<u8>| self.lookup(k) is Some)
    }

    /// A well-formed tree's root is the root of its key set.
    pub proof fn lemma_root_is_set_root(self)
        requires
            self.well_formed(),
        ensures
            self.root_bytes() == set_root(self.key_set()),
    {
        let ks = self.keys();
        assert forall|k: Seq<u8>| #[trigger] ks.contains(k) <==> self.key_set().contains(k) by {
            self.lemma_keys_lookup(k);
        }
        self.lemma_keys_len();
        let s = sorted_listing(self.key_set());
        assert(sorted_keys(s) && (forall|i: int| 0 <= i < s.len() ==> (#[trigger] s[i]).len() == 32)
            && (forall|k: Seq<u8>| #[trigger] s.contains(k) <==> self.key_set().contains(k)));
        lemma_sorted_unique(s, ks);
    }
}

/// Law: the root depends only on which keys are stored, not on the order
/// in which they were inserted nor on the values stored under them.
pub proof fn lemma_root_determined_by_keys(t1: SparseMerkleTree, t2: SparseMerkleTree)
    requires
        t1.well_formed(),
        t2.well_formed(),
        forall|k: Seq<u8>| (#[trigger] t1.lookup(k) is Some) <==> t2.lookup(k) is Some,
    ensures
        t1.root_bytes() == t2.root_bytes(),
{
    assert forall|k: Seq<u8>| t1.keys().contains(k) <==> t2.keys().contains(k) by {
        t1.lemma_keys_lookup(k);
        t2.lemma_keys_lookup(k);
    }
    lemma_sorted_unique(t1.keys(), t2.keys());
}

/// Concatenations of two 32-byte strings are equal only part by part.
proof fn lemma_concat32_split(x1: Seq<u8>, y1: Seq<u8>, x2: Seq<u8>, y2: Seq<u8>)
    requires
        x1.len() == 32,
        x2.len() == 32,
        x1 + y1 == x2 + y2,
    ensures
        x1 == x2,
        y1 == y2,
{
    assert(x1 =~= (x1 + y1).subrange(0, 32));
    assert(x2 =~= (x2 + y2).subrange(0, 32));
    assert(y1 =~= (x1 + y1).subrange(32, (x1 + y1).len() as int));
    assert(y2 =~= (x2 + y2).subrange(32, (x2 + y2).len() as int));
}

/// Law: the root commits to every node of its level. For two levels of the
/// same number of 32-byte nodes, equal roots mean equal levels, as long as
/// the hash has 32-byte outputs and no collisions: no node is dropped on
/// the way up, the last node of an odd level included. (Levels of different
/// sizes are not covered: a one-node level whose node is the hash of a
/// pair has the same root as that pair.)
pub proof fn lemma_root_binds_level(a: Seq<Seq<u8>>, b: Seq<Seq<u8>>)
    requires
        forall|x: Seq<u8>| #[trigger] poseidon(x).len() == 32,
        forall|x: Seq<u8>, y: Seq<u8>| #[trigger] poseidon(x) == #[trigger] poseidon(y) ==> x == y,
        a.len() == b.len(),
        forall|i: int| 0 <= i < a.len() ==> (#[trigger] a[i]).len() == 32,
        forall|i: int| 0 <= i < b.len() ==> (#[trigger] b[i]).len() == 32,
        merkle_root(a) == merkle_root(b),
    ensures
        a == b,
    decreases a.len(),
{
    if a.len() == 0 {
        assert(a =~= b);
    } else if a.len() == 1 {
        assert(a =~= b);
    } else {
        let pa = pair_level(a);
        let pb = pair_level(b);
        assert forall|j: int| 0 <= j < pa.len() implies (#[trigger] pa[j]).len() == 32 by {
            if 2 * j + 1 < a.len() {
                assert(pa[j] == poseidon(a[2 * j] + a[2 * j + 1]));
            }
        }
        assert forall|j: int| 0 <= j < pb.len() implies (#[trigger] pb[j]).len() == 32 by {
            if 2 * j + 1 < b.len() {
                assert(pb[j] == poseidon(b[2 * j] + b[2 * j + 1]));
            }
        }
        lemma_root_binds_level(pa, pb);
        assert forall|i: int| 0 <= i < a.len() implies a[i] == b[i] by {
            let j = i / 2;
            assert(pa[j] == pb[j]);
            if 2 * j + 1 < a.len() {
                assert(poseidon(a[2 * j] + a[2 * j + 1]) == poseidon(b[2 * j] + b[2 * j + 1]));
                lemma_concat32_split(a[2 * j], a[2 * j + 1], b[2 * j], b[2 * j + 1]);
            }
        }
        assert(a =~= b);
    }
}

/// Law: two well-formed trees holding the same number of keys under the
/// same root hold the same keys, as long as the hash has 32-byte outputs
/// and no collisions. In particular every stored key is committed by the
/// root, the largest of an odd count included.
pub proof fn lemma_root_binds_keys(t1: SparseMerkleTree, t2: SparseMerkleTree)
    requires
        forall|x: Seq<u8>| #[trigger] poseidon(x).len() == 32,
        forall|x: Seq<u8>, y: Seq<u8>| #[trigger] poseidon(x) == #[trigger] poseidon(y) ==> x == y,
        t1.well_formed(),
        t2.well_formed(),
        t1.keys().len() == t2.keys().len(),
        t1.root_bytes() == t2.root_bytes(),
    ensures
        forall|k: Seq<u8>| (#[trigger] t1.lookup(k) is Some) <==> t2.lookup(k) is Some,
{
    lemma_root_binds_level(t1.keys(), t2.keys());
    assert forall|k: Seq<u8>| (#[trigger] t1.lookup(k) is Some) <==> t2.lookup(k) is Some by {
        t1.lemma_keys_lookup(k);
        t2.lemma_keys_lookup(k);
    }
}

} // verus!
