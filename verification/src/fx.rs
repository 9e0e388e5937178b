//! Sets and maps of numbers, hashed with the hasher of the `rustc-hash` crate.
use rustc_hash::{FxHashMap, FxHashSet};
use vstd::prelude::*;

verus! {

/// The hash builder that `FxHashSet` and `FxHashMap` are given. It holds no state.
#[verifier::external_type_specification]
#[verifier::external_body]
pub struct ExFxBuildHasher(rustc_hash::FxBuildHasher);

/// `FxHashSet::default`: a set without members.
#[verifier::external_body]
pub(crate) fn fx_set() -> (r: FxHashSet<u32>)
    ensures
        r@ == Set::<u32>::empty(),
{
    FxHashSet::default()
}

/// `FxHashSet::insert`: the member is in the set from now on, and the result tells whether it was
/// not there before.
#[verifier::external_body]
pub(crate) fn fx_insert(set: &mut FxHashSet<u32>, member: u32) -> (r: bool)
    ensures
        final(set)@ == old(set)@.insert(member),
        r == !old(set)@.contains(member),
{
    set.insert(member)
}

/// `FxHashSet::remove`: the member is no longer in the set, and the result tells whether it was
/// there before.
#[verifier::external_body]
pub(crate) fn fx_remove(set: &mut FxHashSet<u32>, member: u32) -> (r: bool)
    ensures
        final(set)@ == old(set)@.remove(member),
        r == old(set)@.contains(member),
{
    set.remove(&member)
}

/// `FxHashSet::contains`: whether the set has the member.
#[verifier::external_body]
pub(crate) fn fx_contains(set: &FxHashSet<u32>, member: u32) -> (r: bool)
    ensures
        r == set@.contains(member),
{
    set.contains(&member)
}

/// `FxHashSet::eq`: whether two sets have the same members.
#[verifier::external_body]
pub(crate) fn fx_same(a: &FxHashSet<u32>, b: &FxHashSet<u32>) -> (r: bool)
    ensures
        r == (a@ == b@),
{
    a == b
}

/// `FxHashMap::default`: a map without entries.
#[verifier::external_body]
pub(crate) fn fx_map() -> (r: FxHashMap<u32, u32>)
    ensures
        r@.dom() == Set::<u32>::empty(),
{
    FxHashMap::default()
}

/// `FxHashMap::insert`: the key has the value from now on.
#[verifier::external_body]
pub(crate) fn fx_put(map: &mut FxHashMap<u32, u32>, key: u32, value: u32)
    ensures
        final(map)@ == old(map)@.insert(key, value),
{
    map.insert(key, value);
}

/// `FxHashMap::get`: the value of the key, if it has one.
#[verifier::external_body]
pub(crate) fn fx_get(map: &FxHashMap<u32, u32>, key: u32) -> (r: Option<u32>)
    ensures
        r == (if map@.contains_key(key) { Some(map@[key]) } else { None }),
{
    map.get(&key).copied()
}

/// `FxHashMap::iter`, each entry copied out: every entry once, in no order that can be relied on.
#[verifier::external_body]
pub(crate) fn fx_entries(map: &FxHashMap<u32, u32>) -> (r: Vec<(u32, u32)>)
    ensures
        forall|i: int| 0 <= i < r@.len() ==> map@.contains_key((#[trigger] r@[i]).0) && map@[r@[i].0] == r@[i].1,
        forall|k: u32| #[trigger] map@.contains_key(k) ==> r@.contains((k, map@[k])),
        forall|i: int, j: int| 0 <= i < j < r@.len() ==> (#[trigger] r@[i]).0 != (#[trigger] r@[j]).0,
{
    map.iter().map(|(key, value)| (*key, *value)).collect()
}

} // verus!
