//! Hash maps with integer keys and the hasher of the `ahash` crate.
use std::collections::HashMap;
use std::hash::Hash;

use vstd::prelude::*;
use vstd::std_specs::hash::obeys_key_model;

verus! {

/// The hasher state of `ahash`: a value that builds equal hashers. Nothing
/// is claimed of what they compute.
#[verifier::external_type_specification]
#[verifier::external_body]
pub struct ExRandomState(ahash::RandomState);

/// A map from `K` to `V` hashed by `ahash`.
pub type Table<K, V> = HashMap<K, V, ahash::RandomState>;

/// Calls `get` of `ahash::HashMap`: the value stored under the key, if there
/// is one.
#[verifier::external_body]
pub(crate) fn table_get<'a, K: Eq + Hash, V>(table: &'a Table<K, V>, key: &K) -> (value: Option<
    &'a V,
>)
    requires
        obeys_key_model::<K>(),
    ensures
        match value {
            Some(v) => table@.contains_key(*key) && *v == table@[*key],
            None => !table@.contains_key(*key),
        },
{
    table.get(key)
}

/// Calls `get_mut` of `ahash::HashMap`: a reference to the value stored under
/// the key, if there is one, through which that value alone changes.
#[verifier::external_body]
pub(crate) fn table_get_mut<'a, K: Eq + Hash, V>(table: &'a mut Table<K, V>, key: &K) -> (value:
    Option<&'a mut V>)
    requires
        obeys_key_model::<K>(),
    ensures
        match value {
            Some(v) => {
                &&& old(table)@.contains_key(*key)
                &&& *v == old(table)@[*key]
                &&& final(table)@ == old(table)@.insert(*key, *final(v))
            },
            None => !old(table)@.contains_key(*key) && final(table)@ == old(table)@,
        },
{
    table.get_mut(key)
}

/// Calls `insert` of `ahash::HashMap`: the value is stored under the key in
/// place of any that was there.
#[verifier::external_body]
pub(crate) fn table_insert<K: Eq + Hash, V>(table: &mut Table<K, V>, key: K, value: V)
    requires
        obeys_key_model::<K>(),
    ensures
        final(table)@ == old(table)@.insert(key, value),
{
    table.insert(key, value);
}

/// Calls `remove` of `ahash::HashMap`: what was stored under the key is taken
/// out and handed over.
#[verifier::external_body]
pub(crate) fn table_remove<K: Eq + Hash, V>(table: &mut Table<K, V>, key: &K) -> (value: Option<V>)
    requires
        obeys_key_model::<K>(),
    ensures
        final(table)@ == old(table)@.remove(*key),
        match value {
            Some(v) => old(table)@.contains_key(*key) && v == old(table)@[*key],
            None => !old(table)@.contains_key(*key),
        },
{
    table.remove(key)
}

/// Calls `len` of `ahash::HashMap`: the number of keys.
#[verifier::external_body]
pub(crate) fn table_len<K: Eq + Hash, V>(table: &Table<K, V>) -> (len: usize)
    requires
        obeys_key_model::<K>(),
    ensures
        len == table@.dom().len(),
{
    table.len()
}

/// Calls `keys` of `ahash::HashMap` and collects what it walks over: every
/// key once, in an order of which nothing is claimed.
#[verifier::external_body]
pub(crate) fn table_keys<K: Eq + Hash + Copy, V>(table: &Table<K, V>) -> (keys: Vec<K>)
    requires
        obeys_key_model::<K>(),
    ensures
        keys@.no_duplicates(),
        keys@.to_set() == table@.dom(),
{
    table.keys().copied().collect()
}

} // verus!
