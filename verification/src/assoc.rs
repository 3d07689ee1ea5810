//! Small association lists keyed by MAC addresses.
//!
//! A MAC address is carried as a `u64` holding its six bytes big-endian, so
//! that the integer order is the lexicographic order of the bytes. The swarm
//! never holds more than a handful of nodes, so maps are vectors of
//! `(key, value)` pairs with no key twice.
use vstd::prelude::*;

verus! {

/// The keys of an association list, in order.
pub open spec fn keys_of<T>(s: Seq<(u64, T)>) -> Seq<u64> {
    s.map_values(|e: (u64, T)| e.0)
}

/// No key occurs twice.
pub open spec fn unique_keys<T>(s: Seq<(u64, T)>) -> bool {
    forall|i: int, j: int|
        0 <= i < s.len() && 0 <= j < s.len() && i != j ==> #[trigger] s[i].0 != #[trigger] s[j].0
}

/// `k` is a key of `s`.
pub open spec fn has_key<T>(s: Seq<(u64, T)>, k: u64) -> bool {
    exists|i: int| 0 <= i < s.len() && #[trigger] s[i].0 == k
}

/// The position of key `k` in `s` (meaningful when `has_key(s, k)`).
pub open spec fn key_index<T>(s: Seq<(u64, T)>, k: u64) -> int {
    choose|i: int| 0 <= i < s.len() && #[trigger] s[i].0 == k
}

/// The value stored under `k`, if any.
pub open spec fn lookup<T>(s: Seq<(u64, T)>, k: u64) -> Option<T> {
    if has_key(s, k) {
        Some(s[key_index(s, k)].1)
    } else {
        None
    }
}

/// With unique keys, the position of a key is the one where it occurs.
pub proof fn lemma_key_index<T>(s: Seq<(u64, T)>, i: int)
    requires
        unique_keys(s),
        0 <= i < s.len(),
    ensures
        has_key(s, s[i].0),
        key_index(s, s[i].0) == i,
        lookup(s, s[i].0) == Some(s[i].1),
{
    assert(has_key(s, s[i].0));
    let j = key_index(s, s[i].0);
    if j != i {
        assert(s[i].0 != s[j].0);
    }
}

/// Position of key `k` in `v`, if present.
pub fn find_key<T>(v: &Vec<(u64, T)>, k: u64) -> (r: Option<usize>)
    ensures
        r matches Some(i) ==> i < v.len() && v@[i as int].0 == k,
        r is None <==> !has_key(v@, k),
        unique_keys(v@) ==> (r matches Some(i) ==> i == key_index(v@, k)),
{
    let mut i: usize = 0;
    while i < v.len()
        invariant
            i <= v.len(),
            forall|j: int| 0 <= j < i ==> #[trigger] v@[j].0 != k,
        decreases v.len() - i,
    {
        if v[i].0 == k {
            proof {
                if unique_keys(v@) {
                    lemma_key_index(v@, i as int);
                }
            }
            return Some(i);
        }
        i += 1;
    }
    None
}

/// `k` occurs in `v`.
pub fn contains_u64(v: &Vec<u64>, k: u64) -> (r: bool)
    ensures
        r == v@.contains(k),
{
    let mut i: usize = 0;
    while i < v.len()
        invariant
            i <= v.len(),
            forall|j: int| 0 <= j < i ==> #[trigger] v@[j] != k,
        decreases v.len() - i,
    {
        if v[i] == k {
            return true;
        }
        i += 1;
    }
    false
}

} // verus!
