//! Association lists keyed by strings.
//!
//! The store keeps its mappings as vectors of `(String, value)` entries
//! whose keys are pairwise distinct, and every contract reads them through
//! a `Map` view. This module holds the view, the distinctness predicate,
//! the lookup routine, and the lemmas that relate the vector operations
//! to `Map` operations.

use vstd::prelude::*;

verus! {

broadcast use vstd::std_specs::vec::group_vec_axioms;

/// No two entries share a key.
pub open spec fn keys_distinct<T>(s: Seq<(String, T)>) -> bool {
    forall|i: int, j: int|
        0 <= i < j < s.len() ==> #[trigger] s[i].0@ != #[trigger] s[j].0@
}

/// The set of keys that occur in the list.
pub open spec fn kv_dom<T>(s: Seq<(String, T)>) -> Set<Seq<char>> {
    Set::new(|k: Seq<char>| exists|i: int| 0 <= i < s.len() && #[trigger] s[i].0@ == k)
}

/// An index at which key `k` occurs; under `keys_distinct` it is the only one.
pub open spec fn kv_index_of<T>(s: Seq<(String, T)>, k: Seq<char>) -> int {
    choose|i: int| 0 <= i < s.len() && #[trigger] s[i].0@ == k
}

/// The list as a mapping from keys to the images of its values under `f`.
pub open spec fn kv_map<T, V>(s: Seq<(String, T)>, f: spec_fn(T) -> V) -> Map<Seq<char>, V> {
    Map::new(
        |k: Seq<char>| kv_dom(s).contains(k),
        |k: Seq<char>| f(s[kv_index_of(s, k)].1),
    )
}

/// Under distinct keys, the entry at index `i` is what the map holds at its key.
pub proof fn lemma_kv_map_index<T, V>(s: Seq<(String, T)>, f: spec_fn(T) -> V, i: int)
    requires
        keys_distinct(s),
        0 <= i < s.len(),
    ensures
        kv_map(s, f).dom().contains(s[i].0@),
        kv_map(s, f)[s[i].0@] == f(s[i].1),
        kv_index_of(s, s[i].0@) == i,
{
    assert(kv_dom(s).contains(s[i].0@));
    let j = kv_index_of(s, s[i].0@);
    assert(0 <= j < s.len() && s[j].0@ == s[i].0@);
}

/// A key that no entry holds is not in the map.
pub proof fn lemma_kv_map_absent<T, V>(s: Seq<(String, T)>, f: spec_fn(T) -> V, k: Seq<char>)
    requires
        forall|i: int| 0 <= i < s.len() ==> #[trigger] s[i].0@ != k,
    ensures
        !kv_map(s, f).dom().contains(k),
{
}

/// Appending an entry with a fresh key inserts it into the map view.
pub proof fn lemma_kv_map_push<T, V>(s: Seq<(String, T)>, f: spec_fn(T) -> V, key: String, v: T)
    requires
        keys_distinct(s),
        !kv_dom(s).contains(key@),
    ensures
        keys_distinct(s.push((key, v))),
        kv_map(s.push((key, v)), f) == kv_map(s, f).insert(key@, f(v)),
{
    let t = s.push((key, v));
    assert forall|i: int, j: int| 0 <= i < j < t.len() implies #[trigger] t[i].0@ != #[trigger] t[j].0@ by {
        if j < s.len() {
            assert(s[i].0@ != s[j].0@);
        } else {
            assert(t[j] == (key, v));
            assert(s[i].0@ != key@);
        }
    }
    assert forall|k: Seq<char>| kv_dom(t).contains(k) <==> kv_dom(s).contains(k) || k == key@ by {
        if kv_dom(s).contains(k) {
            let i = choose|i: int| 0 <= i < s.len() && #[trigger] s[i].0@ == k;
            assert(t[i].0@ == k);
        }
        if k == key@ {
            assert(t[s.len() as int].0@ == k);
        }
        if kv_dom(t).contains(k) {
            let i = choose|i: int| 0 <= i < t.len() && #[trigger] t[i].0@ == k;
            if i < s.len() {
                assert(s[i].0@ == k);
            }
        }
    }
    assert forall|k: Seq<char>| #[trigger] kv_map(t, f).dom().contains(k) implies kv_map(t, f)[k]
        == kv_map(s, f).insert(key@, f(v))[k] by {
        if k == key@ {
            lemma_kv_map_index(t, f, s.len() as int);
        } else {
            let i = kv_index_of(s, k);
            assert(0 <= i < s.len() && s[i].0@ == k);
            assert(t[i].0@ == k);
            lemma_kv_map_index(t, f, i);
            lemma_kv_map_index(s, f, i);
        }
    }
    assert(kv_map(t, f) =~= kv_map(s, f).insert(key@, f(v)));
}

/// Replacing the value at index `i`, keeping a key with the same characters,
/// updates the map view at that key.
pub proof fn lemma_kv_map_update<T, V>(
    s: Seq<(String, T)>,
    f: spec_fn(T) -> V,
    i: int,
    key: String,
    v: T,
)
    requires
        keys_distinct(s),
        0 <= i < s.len(),
        key@ == s[i].0@,
    ensures
        keys_distinct(s.update(i, (key, v))),
        kv_map(s.update(i, (key, v)), f) == kv_map(s, f).insert(key@, f(v)),
{
    let t = s.update(i, (key, v));
    assert forall|k: Seq<char>| kv_dom(t).contains(k) <==> kv_dom(s).contains(k) by {
        if kv_dom(s).contains(k) {
            let n = choose|n: int| 0 <= n < s.len() && #[trigger] s[n].0@ == k;
            assert(t[n].0@ == k);
        }
        if kv_dom(t).contains(k) {
            let n = choose|n: int| 0 <= n < t.len() && #[trigger] t[n].0@ == k;
            assert(s[n].0@ == k);
        }
    }
    assert forall|a: int, b: int| 0 <= a < b < t.len() implies #[trigger] t[a].0@ != #[trigger] t[b].0@ by {
        assert(s[a].0@ != s[b].0@);
    }
    assert forall|k: Seq<char>| #[trigger] kv_map(t, f).dom().contains(k) implies kv_map(t, f)[k]
        == kv_map(s, f).insert(key@, f(v))[k] by {
        if k == key@ {
            lemma_kv_map_index(t, f, i);
        } else {
            let n = kv_index_of(s, k);
            assert(0 <= n < s.len() && s[n].0@ == k);
            assert(n != i);
            assert(t[n].0@ == k);
            lemma_kv_map_index(t, f, n);
            lemma_kv_map_index(s, f, n);
        }
    }
    assert(kv_map(t, f) =~= kv_map(s, f).insert(key@, f(v)));
}

/// Removing the entry at index `i` removes its key from the map view.
pub proof fn lemma_kv_map_remove<T, V>(s: Seq<(String, T)>, f: spec_fn(T) -> V, i: int)
    requires
        keys_distinct(s),
        0 <= i < s.len(),
    ensures
        keys_distinct(s.remove(i)),
        kv_map(s.remove(i), f) == kv_map(s, f).remove(s[i].0@),
{
    let t = s.remove(i);
    assert forall|a: int, b: int| 0 <= a < b < t.len() implies #[trigger] t[a].0@ != #[trigger] t[b].0@ by {
        let a0 = if a < i { a } else { a + 1 };
        let b0 = if b < i { b } else { b + 1 };
        assert(t[a] == s[a0] && t[b] == s[b0]);
        assert(s[a0].0@ != s[b0].0@);
    }
    assert forall|k: Seq<char>| kv_dom(t).contains(k) <==> (kv_dom(s).contains(k) && k != s[i].0@) by {
        if kv_dom(t).contains(k) {
            let n = choose|n: int| 0 <= n < t.len() && #[trigger] t[n].0@ == k;
            let n0 = if n < i { n } else { n + 1 };
            assert(t[n] == s[n0]);
            assert(s[n0].0@ == k);
            assert(n0 != i ==> s[n0].0@ != s[i].0@ || n0 == i);
            assert(k != s[i].0@);
        }
        if kv_dom(s).contains(k) && k != s[i].0@ {
            let n = choose|n: int| 0 <= n < s.len() && #[trigger] s[n].0@ == k;
            assert(n != i);
            if n < i {
                assert(t[n] == s[n]);
                assert(t[n].0@ == k);
            } else {
                assert(t[n - 1] == s[n]);
                assert(t[n - 1].0@ == k);
            }
        }
    }
    assert forall|k: Seq<char>| #[trigger] kv_map(t, f).dom().contains(k) implies kv_map(t, f)[k]
        == kv_map(s, f).remove(s[i].0@)[k] by {
        let n = kv_index_of(s, k);
        assert(0 <= n < s.len() && s[n].0@ == k);
        assert(n != i);
        if n < i {
            assert(t[n] == s[n]);
            lemma_kv_map_index(t, f, n);
        } else {
            assert(t[n - 1] == s[n]);
            lemma_kv_map_index(t, f, n - 1);
        }
        lemma_kv_map_index(s, f, n);
    }
    assert(kv_map(t, f) =~= kv_map(s, f).remove(s[i].0@));
}

/// Two lists with equal keys and, under `f1` and `f2`, equal values at
/// every index have the same map view.
pub proof fn lemma_kv_map_pointwise<T1, T2, V>(
    s1: Seq<(String, T1)>,
    f1: spec_fn(T1) -> V,
    s2: Seq<(String, T2)>,
    f2: spec_fn(T2) -> V,
)
    requires
        keys_distinct(s1),
        s1.len() == s2.len(),
        forall|i: int|
            0 <= i < s1.len() ==> (#[trigger] s1[i]).0@ == (#[trigger] s2[i]).0@ && f1(s1[i].1)
                == f2(s2[i].1),
    ensures
        keys_distinct(s2),
        kv_dom(s1) == kv_dom(s2),
        kv_map(s1, f1) == kv_map(s2, f2),
{
    assert forall|a: int, b: int| 0 <= a < b < s2.len() implies #[trigger] s2[a].0@ != #[trigger] s2[b].0@ by {
        assert(s1[a].0@ != s1[b].0@);
    }
    assert forall|k: Seq<char>| kv_dom(s1).contains(k) <==> kv_dom(s2).contains(k) by {
        if kv_dom(s1).contains(k) {
            let i = choose|i: int| 0 <= i < s1.len() && #[trigger] s1[i].0@ == k;
            assert(s2[i].0@ == k);
        }
        if kv_dom(s2).contains(k) {
            let i = choose|i: int| 0 <= i < s2.len() && #[trigger] s2[i].0@ == k;
            assert(s1[i].0@ == k);
        }
    }
    assert(kv_dom(s1) =~= kv_dom(s2));
    assert forall|k: Seq<char>| #[trigger] kv_map(s1, f1).dom().contains(k) implies kv_map(s1, f1)[k]
        == kv_map(s2, f2)[k] by {
        let i = kv_index_of(s1, k);
        assert(0 <= i < s1.len() && s1[i].0@ == k);
        lemma_kv_map_index(s1, f1, i);
        assert(s2[i].0@ == k);
        lemma_kv_map_index(s2, f2, i);
    }
    assert(kv_map(s1, f1) =~= kv_map(s2, f2));
}

/// The index of `key` in the list, scanning from the front, or nothing if
/// no entry holds it.
pub fn kv_find<T>(entries: &Vec<(String, T)>, key: &str) -> (r: Option<usize>)
    ensures
        match r {
            Some(i) => i < entries@.len() && entries@[i as int].0@ == key@ && forall|j: int|
                0 <= j < i ==> #[trigger] entries@[j].0@ != key@,
            None => forall|j: int| 0 <= j < entries@.len() ==> #[trigger] entries@[j].0@ != key@,
        },
        r is Some <==> kv_dom(entries@).contains(key@),
{
    let mut i: usize = 0;
    while i < entries.len()
        invariant
            i <= entries@.len(),
            forall|j: int| 0 <= j < i ==> #[trigger] entries@[j].0@ != key@,
        decreases entries@.len() - i,
    {
        if crate::text::str_eq(entries[i].0.as_str(), key) {
            proof {
                assert(kv_dom(entries@).contains(key@));
            }
            return Some(i);
        }
        i += 1;
    }
    None
}

} // verus!
