//! Association lists keyed by strings: the model behind attribute maps and
//! the blueprint store. A lookup finds the first entry with the key; setting a
//! key replaces that entry or appends a new one, so keys stay unique.

use vstd::prelude::*;

verus! {

/// Position of the first key equal to `k` at or after `from`, or -1.
pub open spec fn key_index(keys: Seq<Seq<char>>, k: Seq<char>, from: int) -> int
    decreases keys.len() - from,
{
    if from < 0 || from >= keys.len() {
        -1
    } else if keys[from] == k {
        from
    } else {
        key_index(keys, k, from + 1)
    }
}

/// The keys of a model association list.
pub open spec fn keys_of<V>(a: Seq<(Seq<char>, V)>) -> Seq<Seq<char>> {
    a.map_values(|p: (Seq<char>, V)| p.0)
}

/// The keys of an executable association list.
pub open spec fn string_keys<V>(a: Seq<(String, V)>) -> Seq<Seq<char>> {
    a.map_values(|p: (String, V)| p.0@)
}

/// The value stored under `k`, if any.
pub open spec fn assoc_get<V>(a: Seq<(Seq<char>, V)>, k: Seq<char>) -> Option<V> {
    let j = key_index(keys_of(a), k, 0);
    if j >= 0 {
        Some(a[j].1)
    } else {
        None
    }
}

/// `a` with `k` bound to `v`: the entry for `k` is replaced in place, or a new
/// entry is appended.
pub open spec fn assoc_set<V>(a: Seq<(Seq<char>, V)>, k: Seq<char>, v: V) -> Seq<(Seq<char>, V)> {
    let j = key_index(keys_of(a), k, 0);
    if j >= 0 {
        a.update(j, (k, v))
    } else {
        a.push((k, v))
    }
}

pub proof fn lemma_key_index_bounds(keys: Seq<Seq<char>>, k: Seq<char>, from: int)
    requires
        0 <= from,
    ensures
        key_index(keys, k, from) == -1 || (from <= key_index(keys, k, from) < keys.len()
            && keys[key_index(keys, k, from)] == k),
        key_index(keys, k, from) == -1 ==> forall|m: int| from <= m < keys.len() ==> keys[m] != k,
    decreases keys.len() - from,
{
    if from < keys.len() && keys[from] != k {
        lemma_key_index_bounds(keys, k, from + 1);
    }
}

/// Index of the first entry of `a` whose key is `k`.
pub fn find_key<V>(a: &Vec<(String, V)>, k: &String) -> (r: Option<usize>)
    ensures
        match r {
            Some(j) => key_index(string_keys(a@), k@, 0) == j as int,
            None => key_index(string_keys(a@), k@, 0) == -1,
        },
{
    let mut j: usize = 0;
    while j < a.len()
        invariant
            j <= a@.len(),
            key_index(string_keys(a@), k@, 0) == key_index(string_keys(a@), k@, j as int),
        decreases a@.len() - j,
    {
        if a[j].0 == *k {
            return Some(j);
        }
        j = j + 1;
    }
    None
}

} // verus!
