//! What the hash-indexed containers of this crate ask of their keys, and the
//! one operation of `HashMap` that they need beyond what vstd specifies.
//!
//! The contracts of those containers hold for key types that obey vstd's
//! model of a hash-table key (`obeys_key_model`) and whose `clone` gives the
//! key itself (`clone_keeps`).
use std::collections::HashMap;
use std::hash::Hash;
use vstd::prelude::*;
use vstd::std_specs::hash::obeys_key_model;

verus! {

/// A clone of a key is the key.
pub open spec fn clone_keeps<K: Clone>() -> bool {
    forall|a: K, b: K| #[trigger] cloned::<K>(a, b) ==> a == b
}

/// `HashMap::get_mut`: a mutable reference to the value under `k`, through
/// which the value, and nothing else of the map, can be changed; `None`
/// when the map has no such key.
#[verifier::external_body]
pub(crate) fn map_get_mut<'a, K: Eq + Hash, V>(map: &'a mut HashMap<K, V>, k: &K) -> (slot: Option<
    &'a mut V,
>)
    ensures
        obeys_key_model::<K>() ==> match slot {
            Some(v) => old(map)@.contains_key(*k) && *v == old(map)@[*k] && final(map)@ == old(
                map,
            )@.insert(*k, *final(v)),
            None => !old(map)@.contains_key(*k) && final(map)@ == old(map)@,
        },
{
    map.get_mut(k)
}

} // verus!
