//! Lookup by name in vectors of `(String, V)` pairs: the first pair with a
//! given name is the one that counts.

use vstd::prelude::*;
use crate::text::str_eq;

verus! {

/// The names of the pairs, in order.
pub open spec fn key_seq<V>(e: Seq<(String, V)>) -> Seq<Seq<char>> {
    e.map_values(|p: (String, V)| p.0@)
}

/// Index of the first occurrence of `k` in `keys`.
pub open spec fn first_index(keys: Seq<Seq<char>>, k: Seq<char>) -> Option<int>
    decreases keys.len(),
{
    if keys.len() == 0 {
        None
    } else {
        match first_index(keys.drop_last(), k) {
            Some(i) => Some(i),
            None => if keys.last() == k { Some(keys.len() - 1) } else { None },
        }
    }
}

/// `first_index` finds the first occurrence, or tells that there is none.
pub proof fn lemma_first_index(keys: Seq<Seq<char>>, k: Seq<char>)
    ensures
        match first_index(keys, k) {
            Some(i) => 0 <= i < keys.len() && keys[i] == k && forall|j: int| 0 <= j < i ==> keys[j] != k,
            None => forall|j: int| 0 <= j < keys.len() ==> keys[j] != k,
        },
    decreases keys.len(),
{
    if keys.len() > 0 {
        let d = keys.drop_last();
        lemma_first_index(d, k);
        assert forall|j: int| 0 <= j < d.len() implies d[j] == keys[j] by {}
    }
}

/// A first occurrence found by scanning is the one `first_index` names.
pub proof fn lemma_first_index_at(keys: Seq<Seq<char>>, k: Seq<char>, i: int)
    requires
        0 <= i < keys.len(),
        keys[i] == k,
        forall|j: int| 0 <= j < i ==> keys[j] != k,
    ensures
        first_index(keys, k) == Some(i),
{
    lemma_first_index(keys, k);
}

/// Index of the first pair named `key`.
pub fn find_key<V>(e: &Vec<(String, V)>, key: &str) -> (r: Option<usize>)
    ensures
        match r {
            Some(i) => first_index(key_seq(e@), key@) == Some(i as int),
            None => first_index(key_seq(e@), key@) is None,
        },
{
    let ghost keys = key_seq(e@);
    let mut i: usize = 0;
    while i < e.len()
        invariant
            keys == key_seq(e@),
            i <= e@.len(),
            forall|j: int| 0 <= j < i ==> keys[j] != key@,
        decreases e@.len() - i,
    {
        if str_eq(e[i].0.as_str(), key) {
            proof {
                lemma_first_index_at(keys, key@, i as int);
            }
            return Some(i);
        }
        i = i + 1;
    }
    proof {
        lemma_first_index(keys, key@);
    }
    None
}

} // verus!
