//! Calls into the standard collections that are taken on trust: each contract
//! here restates what the standard library documents and is not proved.

use crate::equality::level_eq;
use std::collections::HashMap;
use std::collections::HashSet;
use std::hash::Hash;
use vstd::prelude::*;
use vstd::std_specs::cmp::PartialEqSpec;
use vstd::std_specs::hash::obeys_key_model;

verus! {

/// `HashMap::into_iter`, gathered in a vector. The iterator hands out every
/// entry of the map once, in an order that is not fixed: the contract says
/// that each pair is an entry, that each key of the map occurs, and that no
/// key occurs twice.
#[verifier::external_body]
pub(crate) fn into_pairs<K: Eq + Hash, V>(m: HashMap<K, V>) -> (pairs: Vec<(K, V)>)
    requires
        obeys_key_model::<K>(),
    ensures
        entries_of(pairs@, m@),
{
    m.into_iter().collect()
}

/// `pairs` lists the entries of `m`, each once, in some order.
pub open spec fn entries_of<K, V>(pairs: Seq<(K, V)>, m: Map<K, V>) -> bool {
    &&& forall|i: int|
        0 <= i < pairs.len() ==> m.contains_key((#[trigger] pairs[i]).0) && m[pairs[i].0]
            == pairs[i].1
    &&& forall|k: K|
        (#[trigger] m.contains_key(k)) ==> exists|i: int|
            0 <= i < pairs.len() && (#[trigger] pairs[i]).0 == k
    &&& forall|i: int, j: int|
        0 <= i < j < pairs.len() ==> (#[trigger] pairs[i]).0 != (#[trigger] pairs[j]).0
}

/// `HashSet::insert` on a set of borrowed keys. A borrowed key hashes and
/// compares as the key that it points to, so the set behaves as a set of
/// keys: afterwards it holds `k` besides what it held, and the result says
/// whether `k` was new.
#[verifier::external_body]
pub(crate) fn insert_borrowed_key<'a, K: Eq + Hash>(set: &mut HashSet<&'a K>, k: &'a K) -> (fresh:
    bool)
    requires
        obeys_key_model::<K>(),
    ensures
        final(set)@ == old(set)@.insert(k),
        fresh == !old(set)@.contains(k),
{
    set.insert(k)
}

/// `HashMap::insert` on a map with borrowed keys. A borrowed key hashes and
/// compares as the key that it points to, so the map behaves as a map from
/// keys: afterwards it maps `k` to `item` and is otherwise as before, and the
/// result is what `k` was mapped to.
#[verifier::external_body]
pub(crate) fn insert_borrowed_entry<'a, K: Eq + Hash, T>(
    map: &mut HashMap<&'a K, T>,
    k: &'a K,
    item: T,
) -> (previous: Option<T>)
    requires
        obeys_key_model::<K>(),
    ensures
        final(map)@ == old(map)@.insert(k, item),
        previous == if old(map)@.contains_key(k) {
            Some(old(map)@[k])
        } else {
            None
        },
{
    map.insert(k, item)
}

/// `HashMap::get_mut`: a mutable borrow of the value that the map holds for
/// `k`, or nothing where it holds none. Whatever the borrower writes through
/// it becomes the value of `k`; the rest of the map stays as it is.
#[verifier::external_body]
pub(crate) fn value_mut<'a, K: Eq + Hash, V>(map: &'a mut HashMap<K, V>, k: &K) -> (slot: Option<
    &'a mut V,
>)
    requires
        obeys_key_model::<K>(),
    ensures
        match slot {
            Some(v) => old(map)@.contains_key(*k) && *v == old(map)@[*k] && final(map)@ == old(
                map,
            )@.insert(*k, *final(v)),
            None => !old(map)@.contains_key(*k) && final(map)@ == old(map)@,
        },
{
    map.get_mut(k)
}

/// `String::push`: the character is appended to the text.
#[verifier::external_body]
pub(crate) fn push_char(text: &mut String, c: char)
    ensures
        final(text)@ == old(text)@.push(c),
{
    text.push(c)
}

/// `HashMap::eq`: two maps are equal where they hold the same keys and, for
/// each key, values that the value type calls equal.
#[verifier::external_body]
pub(crate) fn maps_equal<K: Eq + Hash, V: PartialEq>(a: &HashMap<K, V>, b: &HashMap<K, V>) -> (same:
    bool)
    ensures
        obeys_key_model::<K>() && V::obeys_eq_spec() ==> same == level_eq(a@, b@),
{
    a == b
}

/// `Vec::from` on an array: the vector holds the array's items in their order.
#[verifier::external_body]
pub(crate) fn array_into_vec<T, const N: usize>(items: [T; N]) -> (v: Vec<T>)
    ensures
        v@ == items@,
{
    Vec::from(items)
}

} // verus!
