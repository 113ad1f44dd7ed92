//! Association lists keyed by 32-byte hashes, viewed as maps from the
//! key bytes to the stored value.
use vstd::prelude::*;
use crate::crypto::hash_eq;

verus! {

/// Some entry of `s` is stored under key `k`.
pub open spec fn has_key<T>(s: Seq<(crate::crypto::Hash, T)>, k: Seq<u8>) -> bool {
    exists|i: int| 0 <= i < s.len() && (#[trigger] s[i]).0@ == k
}

/// No key is stored twice.
pub open spec fn keys_distinct<T>(s: Seq<(crate::crypto::Hash, T)>) -> bool {
    forall|i: int, j: int|
        0 <= i < s.len() && 0 <= j < s.len() && i != j ==> (#[trigger] s[i]).0@ != (#[trigger] s[j]).0@
}

/// The entries as a map from key bytes to value.
pub open spec fn entry_map<T>(s: Seq<(crate::crypto::Hash, T)>) -> Map<Seq<u8>, T> {
    Map::new(
        |k: Seq<u8>| has_key(s, k),
        |k: Seq<u8>| s[choose|i: int| 0 <= i < s.len() && (#[trigger] s[i]).0@ == k].1,
    )
}

/// The keys of the entries form a finite set, with no more keys than entries.
pub proof fn lemma_entry_map_finite<T>(s: Seq<(crate::crypto::Hash, T)>)
    ensures
        entry_map(s).dom().finite(),
        entry_map(s).dom().len() <= s.len(),
{
    let ks = Seq::new(s.len(), |i: int| s[i].0@);
    assert forall|k: Seq<u8>| entry_map(s).dom().contains(k) <==> ks.to_set().contains(k) by {
        if entry_map(s).dom().contains(k) {
            let i = choose|i: int| 0 <= i < s.len() && (#[trigger] s[i]).0@ == k;
            assert(ks[i] == k);
        }
        if ks.to_set().contains(k) {
            let i = choose|i: int| 0 <= i < ks.len() && ks[i] == k;
            assert(s[i].0@ == k);
        }
    }
    assert(entry_map(s).dom() =~= ks.to_set());
    vstd::seq_lib::seq_to_set_is_finite(ks);
    ks.lemma_cardinality_of_set();
}

/// With distinct keys, the entry at `i` is what its key maps to.
pub proof fn lemma_entry_at<T>(s: Seq<(crate::crypto::Hash, T)>, i: int)
    requires
        keys_distinct(s),
        0 <= i < s.len(),
    ensures
        entry_map(s).contains_key(s[i].0@),
        entry_map(s)[s[i].0@] == s[i].1,
{
    assert(has_key(s, s[i].0@));
    let j = choose|j: int| 0 <= j < s.len() && (#[trigger] s[j]).0@ == s[i].0@;
    assert(j == i);
}

/// Replacing the value at `i` replaces what its key maps to.
pub proof fn lemma_entry_map_update<T>(s: Seq<(crate::crypto::Hash, T)>, i: int, v: T)
    requires
        keys_distinct(s),
        0 <= i < s.len(),
    ensures
        keys_distinct(s.update(i, (s[i].0, v))),
        entry_map(s.update(i, (s[i].0, v))) == entry_map(s).insert(s[i].0@, v),
{
    let t = s.update(i, (s[i].0, v));
    assert forall|k: Seq<u8>| has_key(t, k) <==> has_key(s, k) by {
        if has_key(t, k) {
            let j = choose|j: int| 0 <= j < t.len() && (#[trigger] t[j]).0@ == k;
            assert(s[j].0@ == k);
        }
        if has_key(s, k) {
            let j = choose|j: int| 0 <= j < s.len() && (#[trigger] s[j]).0@ == k;
            assert(t[j].0@ == k);
        }
    }
    assert forall|k: Seq<u8>| #[trigger] has_key(t, k) implies entry_map(t)[k] == entry_map(s).insert(
        s[i].0@,
        v,
    )[k] by {
        let j = choose|j: int| 0 <= j < t.len() && (#[trigger] t[j]).0@ == k;
        lemma_entry_at(t, j);
        if j != i {
            lemma_entry_at(s, j);
        }
    }
    assert(entry_map(t) =~= entry_map(s).insert(s[i].0@, v));
}

/// Appending an entry under a new key adds that key to the map.
pub proof fn lemma_entry_map_push<T>(s: Seq<(crate::crypto::Hash, T)>, e: (crate::crypto::Hash, T))
    requires
        keys_distinct(s),
        !has_key(s, e.0@),
    ensures
        keys_distinct(s.push(e)),
        entry_map(s.push(e)) == entry_map(s).insert(e.0@, e.1),
{
    let t = s.push(e);
    assert forall|i: int, j: int|
        0 <= i < t.len() && 0 <= j < t.len() && i != j implies (#[trigger] t[i]).0@ != (
        #[trigger] t[j]).0@ by {
        if i == s.len() {
            assert(s[j] == t[j]);
        } else if j == s.len() {
            assert(s[i] == t[i]);
        } else {
            assert(s[i] == t[i] && s[j] == t[j]);
        }
    }
    assert forall|k: Seq<u8>| has_key(t, k) <==> (has_key(s, k) || k == e.0@) by {
        if has_key(t, k) {
            let j = choose|j: int| 0 <= j < t.len() && (#[trigger] t[j]).0@ == k;
            if j < s.len() {
                assert(s[j].0@ == k);
            }
        }
        if has_key(s, k) {
            let j = choose|j: int| 0 <= j < s.len() && (#[trigger] s[j]).0@ == k;
            assert(t[j].0@ == k);
        }
        if k == e.0@ {
            assert(t[s.len() as int].0@ == k);
        }
    }
    assert forall|k: Seq<u8>| #[trigger] has_key(t, k) implies entry_map(t)[k] == entry_map(s).insert(
        e.0@,
        e.1,
    )[k] by {
        let j = choose|j: int| 0 <= j < t.len() && (#[trigger] t[j]).0@ == k;
        lemma_entry_at(t, j);
        if j < s.len() {
            assert(t[j] == s[j]);
            lemma_entry_at(s, j);
        }
    }
    assert(entry_map(t) =~= entry_map(s).insert(e.0@, e.1));
}

/// Removing the entry at `i` removes its key from the map.
pub proof fn lemma_entry_map_remove<T>(s: Seq<(crate::crypto::Hash, T)>, i: int)
    requires
        keys_distinct(s),
        0 <= i < s.len(),
    ensures
        keys_distinct(s.remove(i)),
        entry_map(s.remove(i)) == entry_map(s).remove(s[i].0@),
{
    let t = s.remove(i);
    assert forall|a: int, b: int|
        0 <= a < t.len() && 0 <= b < t.len() && a != b implies (#[trigger] t[a]).0@ != (
        #[trigger] t[b]).0@ by {
        let a1 = if a < i { a } else { a + 1 };
        let b1 = if b < i { b } else { b + 1 };
        assert(t[a] == s[a1] && t[b] == s[b1]);
    }
    assert forall|k: Seq<u8>| has_key(t, k) <==> (has_key(s, k) && k != s[i].0@) by {
        if has_key(t, k) {
            let j = choose|j: int| 0 <= j < t.len() && (#[trigger] t[j]).0@ == k;
            let j1 = if j < i { j } else { j + 1 };
            assert(t[j] == s[j1]);
        }
        if has_key(s, k) && k != s[i].0@ {
            let j = choose|j: int| 0 <= j < s.len() && (#[trigger] s[j]).0@ == k;
            let j1 = if j < i { j } else { j - 1 };
            assert(t[j1] == s[j]);
        }
    }
    assert forall|k: Seq<u8>| #[trigger] has_key(t, k) implies entry_map(t)[k] == entry_map(s)[k] by {
        let j = choose|j: int| 0 <= j < t.len() && (#[trigger] t[j]).0@ == k;
        let j1 = if j < i { j } else { j + 1 };
        assert(t[j] == s[j1]);
        lemma_entry_at(t, j);
        lemma_entry_at(s, j1);
    }
    assert(entry_map(t) =~= entry_map(s).remove(s[i].0@));
}

/// Position of the entry stored under `k`, if any.
pub fn find_key<T>(s: &Vec<(crate::crypto::Hash, T)>, k: &crate::crypto::Hash) -> (r: Option<usize>)
    ensures
        match r {
            Some(i) => i < s@.len() && s@[i as int].0@ == k@,
            None => !has_key(s@, k@),
        },
{
    let n = s.len();
    let mut i: usize = 0;
    while i < n
        invariant
            0 <= i <= n,
            n == s@.len(),
            forall|j: int| 0 <= j < i ==> (#[trigger] s@[j]).0@ != k@,
        decreases n - i,
    {
        if hash_eq(&s[i].0, k) {
            return Some(i);
        }
        i = i + 1;
    }
    None
}

} // verus!
