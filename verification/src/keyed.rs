//! Finite maps and sets stored as vectors whose entries have distinct keys.
//!
//! A room's members, its pending offline timers, the connected sockets and
//! the open rooms are each kept in a `Vec` whose entries carry a string key
//! that occurs at most once. The spec functions here read such a sequence
//! as a `Map` from keys to values, and the lemmas say how that map changes
//! when an entry is replaced, appended or removed.
use vstd::prelude::*;

verus! {

/// Some entry of `s` has key `k`.
pub open spec fn has_key<A>(s: Seq<A>, key: spec_fn(A) -> Seq<char>, k: Seq<char>) -> bool {
    exists|i: int| 0 <= i < s.len() && #[trigger] key(s[i]) == k
}

/// The position of an entry of `s` with key `k` (meaningful when one exists).
pub open spec fn key_index<A>(s: Seq<A>, key: spec_fn(A) -> Seq<char>, k: Seq<char>) -> int {
    choose|i: int| 0 <= i < s.len() && #[trigger] key(s[i]) == k
}

/// No key occurs twice in `s`.
pub open spec fn keys_unique<A>(s: Seq<A>, key: spec_fn(A) -> Seq<char>) -> bool {
    forall|i: int, j: int|
        0 <= i < s.len() && 0 <= j < s.len() && #[trigger] key(s[i]) == #[trigger] key(s[j]) ==> i
            == j
}

/// The map from each key of `s` to the value of its entry.
pub open spec fn keyed_map<A, V>(
    s: Seq<A>,
    key: spec_fn(A) -> Seq<char>,
    val: spec_fn(A) -> V,
) -> Map<Seq<char>, V> {
    Map::new(|k: Seq<char>| has_key(s, key, k), |k: Seq<char>| val(s[key_index(s, key, k)]))
}

/// The entry at `i` is the one the map reads for its key.
pub proof fn lemma_keyed_index<A, V>(
    s: Seq<A>,
    key: spec_fn(A) -> Seq<char>,
    val: spec_fn(A) -> V,
    i: int,
)
    requires
        keys_unique(s, key),
        0 <= i < s.len(),
    ensures
        has_key(s, key, key(s[i])),
        key_index(s, key, key(s[i])) == i,
        keyed_map(s, key, val).dom().contains(key(s[i])),
        keyed_map(s, key, val)[key(s[i])] == val(s[i]),
{
    assert(has_key(s, key, key(s[i])));
    let j = key_index(s, key, key(s[i]));
    assert(key(s[j]) == key(s[i]));
}

/// Replacing the entry at `i` by one with the same key updates the map at that key.
pub proof fn lemma_keyed_update<A, V>(
    s: Seq<A>,
    key: spec_fn(A) -> Seq<char>,
    val: spec_fn(A) -> V,
    i: int,
    x: A,
)
    requires
        keys_unique(s, key),
        0 <= i < s.len(),
        key(x) == key(s[i]),
    ensures
        keys_unique(s.update(i, x), key),
        keyed_map(s.update(i, x), key, val) == keyed_map(s, key, val).insert(key(x), val(x)),
{
    let t = s.update(i, x);
    assert forall|a: int, b: int|
        0 <= a < t.len() && 0 <= b < t.len() && #[trigger] key(t[a]) == #[trigger] key(
            t[b],
        ) implies a == b by {
        if a == i {
            assert(key(s[b]) == key(s[a]));
        } else if b == i {
            assert(key(s[a]) == key(s[b]));
        } else {
            assert(key(s[a]) == key(s[b]));
        }
    }
    lemma_keyed_index(t, key, val, i);
    let m1 = keyed_map(t, key, val);
    let m2 = keyed_map(s, key, val).insert(key(x), val(x));
    assert forall|k: Seq<char>| m1.dom().contains(k) <==> m2.dom().contains(k) by {
        if has_key(t, key, k) {
            let j = choose|j: int| 0 <= j < t.len() && #[trigger] key(t[j]) == k;
            if j != i {
                assert(key(s[j]) == k);
            }
        }
        if has_key(s, key, k) {
            let j = choose|j: int| 0 <= j < s.len() && #[trigger] key(s[j]) == k;
            if j != i {
                assert(key(t[j]) == k);
            }
        }
    }
    assert forall|k: Seq<char>| m1.dom().contains(k) implies m1[k] == m2[k] by {
        if k != key(x) {
            let j = key_index(t, key, k);
            assert(key(t[j]) == k);
            assert(j != i);
            assert(key(s[j]) == k);
            lemma_keyed_index(s, key, val, j);
            lemma_keyed_index(t, key, val, j);
        }
    }
    assert(m1 =~= m2);
}

/// Appending an entry with a new key adds that key to the map.
pub proof fn lemma_keyed_push<A, V>(
    s: Seq<A>,
    key: spec_fn(A) -> Seq<char>,
    val: spec_fn(A) -> V,
    x: A,
)
    requires
        keys_unique(s, key),
        !has_key(s, key, key(x)),
    ensures
        keys_unique(s.push(x), key),
        keyed_map(s.push(x), key, val) == keyed_map(s, key, val).insert(key(x), val(x)),
{
    let t = s.push(x);
    let n = s.len() as int;
    assert forall|a: int, b: int|
        0 <= a < t.len() && 0 <= b < t.len() && #[trigger] key(t[a]) == #[trigger] key(
            t[b],
        ) implies a == b by {
        if a == n && b != n {
            assert(key(s[b]) == key(x));
        } else if b == n && a != n {
            assert(key(s[a]) == key(x));
        } else if a != n && b != n {
            assert(key(s[a]) == key(s[b]));
        }
    }
    lemma_keyed_index(t, key, val, n);
    let m1 = keyed_map(t, key, val);
    let m2 = keyed_map(s, key, val).insert(key(x), val(x));
    assert forall|k: Seq<char>| m1.dom().contains(k) <==> m2.dom().contains(k) by {
        if has_key(t, key, k) {
            let j = choose|j: int| 0 <= j < t.len() && #[trigger] key(t[j]) == k;
            if j != n {
                assert(key(s[j]) == k);
            }
        }
        if has_key(s, key, k) {
            let j = choose|j: int| 0 <= j < s.len() && #[trigger] key(s[j]) == k;
            assert(key(t[j]) == k);
        }
    }
    assert forall|k: Seq<char>| m1.dom().contains(k) implies m1[k] == m2[k] by {
        if k != key(x) {
            let j = key_index(t, key, k);
            assert(key(t[j]) == k);
            assert(j != n);
            assert(key(s[j]) == k);
            lemma_keyed_index(s, key, val, j);
            lemma_keyed_index(t, key, val, j);
        }
    }
    assert(m1 =~= m2);
}

/// Removing the entry at `i` removes its key from the map.
pub proof fn lemma_keyed_remove<A, V>(
    s: Seq<A>,
    key: spec_fn(A) -> Seq<char>,
    val: spec_fn(A) -> V,
    i: int,
)
    requires
        keys_unique(s, key),
        0 <= i < s.len(),
    ensures
        keys_unique(s.remove(i), key),
        keyed_map(s.remove(i), key, val) == keyed_map(s, key, val).remove(key(s[i])),
{
    let t = s.remove(i);
    let src = |j: int| if j < i { j } else { j + 1 };
    assert forall|a: int, b: int|
        0 <= a < t.len() && 0 <= b < t.len() && #[trigger] key(t[a]) == #[trigger] key(
            t[b],
        ) implies a == b by {
        assert(t[a] == s[src(a)]);
        assert(t[b] == s[src(b)]);
        assert(key(s[src(a)]) == key(s[src(b)]));
    }
    let m1 = keyed_map(t, key, val);
    let m2 = keyed_map(s, key, val).remove(key(s[i]));
    assert forall|k: Seq<char>| m1.dom().contains(k) <==> m2.dom().contains(k) by {
        if has_key(t, key, k) {
            let j = choose|j: int| 0 <= j < t.len() && #[trigger] key(t[j]) == k;
            assert(t[j] == s[src(j)]);
            assert(key(s[src(j)]) == k);
            if k == key(s[i]) {
                assert(key(s[src(j)]) == key(s[i]));
            }
        }
        if has_key(s, key, k) && k != key(s[i]) {
            let j = choose|j: int| 0 <= j < s.len() && #[trigger] key(s[j]) == k;
            assert(j != i);
            let jj = if j < i { j } else { j - 1 };
            assert(t[jj] == s[j]);
            assert(key(t[jj]) == k);
        }
    }
    assert forall|k: Seq<char>| m1.dom().contains(k) implies m1[k] == m2[k] by {
        let j = key_index(t, key, k);
        assert(key(t[j]) == k);
        assert(t[j] == s[src(j)]);
        lemma_keyed_index(s, key, val, src(j));
        lemma_keyed_index(t, key, val, j);
    }
    assert(m1 =~= m2);
}

/// A key that no entry carries is not in the map.
pub proof fn lemma_keyed_absent<A, V>(
    s: Seq<A>,
    key: spec_fn(A) -> Seq<char>,
    val: spec_fn(A) -> V,
    k: Seq<char>,
)
    requires
        !has_key(s, key, k),
    ensures
        !keyed_map(s, key, val).dom().contains(k),
{
}

/// The empty sequence reads as the empty map.
pub proof fn lemma_keyed_empty<A, V>(
    s: Seq<A>,
    key: spec_fn(A) -> Seq<char>,
    val: spec_fn(A) -> V,
)
    requires
        s.len() == 0,
    ensures
        keys_unique(s, key),
        keyed_map(s, key, val) == Map::<Seq<char>, V>::empty(),
{
    assert(keyed_map(s, key, val) =~= Map::<Seq<char>, V>::empty());
}

} // verus!

verus! {

/// The key of a string entry: the string's characters.
pub open spec fn str_key() -> spec_fn(String) -> Seq<char> {
    |s: String| s@
}

/// A string entry carries no value besides its key.
pub open spec fn no_val() -> spec_fn(String) -> () {
    |s: String| ()
}

/// The set of strings held by a vector.
pub open spec fn string_set(v: Seq<String>) -> Set<Seq<char>> {
    keyed_map(v, str_key(), no_val()).dom()
}

/// The vector holds each string at most once.
pub open spec fn strings_unique(v: Seq<String>) -> bool {
    keys_unique(v, str_key())
}

/// Finds the position of `s` in `v`.
pub fn find_string(v: &Vec<String>, s: &String) -> (res: Option<usize>)
    ensures
        match res {
            Some(i) => i < v.len() && v@[i as int]@ == s@,
            None => !has_key(v@, str_key(), s@),
        },
{
    let mut i: usize = 0;
    while i < v.len()
        invariant
            i <= v.len(),
            forall|j: int| 0 <= j < i ==> v@[j]@ != s@,
        decreases v.len() - i,
    {
        if v[i] == *s {
            return Some(i);
        }
        i = i + 1;
    }
    assert forall|j: int| 0 <= j < v@.len() implies #[trigger] str_key()(v@[j]) != s@ by {}
    None
}

/// Whether the set held by `v` contains `s`.
pub fn contains_string(v: &Vec<String>, s: &String) -> (res: bool)
    requires
        strings_unique(v@),
    ensures
        res == string_set(v@).contains(s@),
{
    match find_string(v, s) {
        Some(i) => {
            proof {
                lemma_keyed_index(v@, str_key(), no_val(), i as int);
            }
            true
        },
        None => false,
    }
}

/// Adds `s` to the set held by `v`.
pub fn insert_string(v: &mut Vec<String>, s: String)
    requires
        strings_unique(old(v)@),
    ensures
        strings_unique(final(v)@),
        string_set(final(v)@) == string_set(old(v)@).insert(s@),
{
    match find_string(v, &s) {
        Some(i) => {
            proof {
                lemma_keyed_index(v@, str_key(), no_val(), i as int);
                assert(string_set(v@).insert(s@) =~= string_set(v@));
            }
        },
        None => {
            proof {
                lemma_keyed_push(v@, str_key(), no_val(), s);
            }
            v.push(s);
        },
    }
}

/// Removes `s` from the set held by `v`.
pub fn remove_string(v: &mut Vec<String>, s: &String)
    requires
        strings_unique(old(v)@),
    ensures
        strings_unique(final(v)@),
        string_set(final(v)@) == string_set(old(v)@).remove(s@),
{
    match find_string(v, s) {
        Some(i) => {
            proof {
                lemma_keyed_remove(v@, str_key(), no_val(), i as int);
            }
            v.remove(i);
        },
        None => {
            proof {
                lemma_keyed_absent(v@, str_key(), no_val(), s@);
                assert(string_set(v@).remove(s@) =~= string_set(v@));
            }
        },
    }
}

} // verus!
