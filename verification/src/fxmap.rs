//! Trusted access to `rustc_hash::FxHashMap`, a `std::collections::HashMap`
//! with the deterministic Fx hasher. The contracts below are the map laws of
//! `HashMap`, for keys whose `Eq` and `Hash` agree with equality (as vstd's
//! `obeys_key_model` states of the integer types); `FxBuildHasher` builds
//! hashers that hash equal keys equally, which is what those laws also rest on.
use rustc_hash::{FxBuildHasher, FxHashMap};
use std::hash::Hash;
use vstd::prelude::*;
use vstd::std_specs::hash::obeys_key_model;

verus! {

/// `rustc_hash::FxBuildHasher`, carried through opaquely.
#[verifier::external_type_specification]
#[verifier::external_body]
pub struct ExFxBuildHasher(FxBuildHasher);

/// `FxHashMap::default`: an empty map.
#[verifier::external_body]
pub(crate) fn fx_new<K, V>() -> (r: FxHashMap<K, V>)
    ensures
        r@.dom().is_empty(),
{
    FxHashMap::default()
}

/// `HashMap::insert` on an `FxHashMap`: maps `k` to `v`.
#[verifier::external_body]
pub(crate) fn fx_insert<K: Eq + Hash, V>(m: &mut FxHashMap<K, V>, k: K, v: V)
    ensures
        obeys_key_model::<K>() ==> final(m)@ == old(m)@.insert(k, v),
{
    m.insert(k, v);
}

/// `HashMap::get` on an `FxHashMap`: the value mapped to `k`, if any.
#[verifier::external_body]
pub(crate) fn fx_get<'a, K: Eq + Hash, V>(m: &'a FxHashMap<K, V>, k: &K) -> (r: Option<&'a V>)
    ensures
        obeys_key_model::<K>() ==> match r {
            Some(v) => m@.contains_key(*k) && *v == m@[*k],
            None => !m@.contains_key(*k),
        },
{
    m.get(k)
}

/// `HashMap::remove` on an `FxHashMap`: takes out the value mapped to `k`, if any.
#[verifier::external_body]
pub(crate) fn fx_remove<K: Eq + Hash, V>(m: &mut FxHashMap<K, V>, k: &K) -> (r: Option<V>)
    ensures
        obeys_key_model::<K>() ==> final(m)@ == old(m)@.remove(*k),
        obeys_key_model::<K>() ==> match r {
            Some(v) => old(m)@.contains_key(*k) && v == old(m)@[*k],
            None => !old(m)@.contains_key(*k),
        },
{
    m.remove(k)
}

} // verus!
