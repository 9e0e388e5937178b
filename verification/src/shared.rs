//! Values that can be copied exactly, and values that are shared until they change.
use crate::ordered::{listed, OrderedKey, OrderedMap};
use crate::paths::{FilePath, LineEndings};
use std::sync::Arc;
use vstd::prelude::*;

verus! {

pub trait Replica: Sized {
    fn replica(&self) -> (r: Self)
        ensures
            r == *self,
    ;
}

impl Replica for u32 {
    fn replica(&self) -> (r: Self) {
        *self
    }
}

impl Replica for u64 {
    fn replica(&self) -> (r: Self) {
        *self
    }
}

impl Replica for usize {
    fn replica(&self) -> (r: Self) {
        *self
    }
}

impl Replica for LineEndings {
    fn replica(&self) -> (r: Self) {
        *self
    }
}

impl Replica for String {
    fn replica(&self) -> (r: Self) {
        self.clone()
    }
}

impl Replica for FilePath {
    fn replica(&self) -> (r: Self) {
        FilePath { text: self.text.clone(), key: self.key.clone() }
    }
}

/// Copies a map entry by entry.
pub fn map_replica<K: OrderedKey + Replica, V: Replica>(m: &OrderedMap<K, V>) -> (r: OrderedMap<K, V>)
    ensures
        r@ == m@,
{
    let n = m.len();
    let mut r: OrderedMap<K, V> = OrderedMap::new();
    let mut i: usize = 0;
    while i < n
        invariant
            i <= n,
            n == m.keys().len(),
            listed(*m),
            forall|k: K::V| #[trigger] r@.contains_key(k) <==> m.keys().take(i as int).contains(k),
            forall|k: K::V| #[trigger] r@.contains_key(k) ==> m@.contains_key(k) && r@[k] == m@[k],
        decreases n - i,
    {
        let ghost before = r@;
        r.insert(m.key_at(i).replica(), m.value_at(i).replica());
        proof {
            let key = m.keys()[i as int];
            assert(m@.contains_key(m.keys()[i as int]));
            assert(m.keys().take(i + 1) =~= m.keys().take(i as int).push(key));
            assert forall|k: K::V| #[trigger] r@.contains_key(k) <==> m.keys().take(i + 1).contains(k) by {
                if m.keys().take(i as int).contains(k) {
                    let j = m.keys().take(i as int).index_of(k);
                    assert(m.keys().take(i + 1)[j] == k);
                }
                if k == key {
                    assert(m.keys().take(i + 1)[i as int] == k);
                }
                if r@.contains_key(k) && k != key {
                    assert(before.contains_key(k));
                }
            }
        }
        i = i + 1;
    }
    proof {
        assert(m.keys().take(n as int) =~= m.keys());
        assert forall|k: K::V| m@.contains_key(k) implies r@.contains_key(k) by {
            assert(m.keys().contains(k));
        }
        assert(r@ =~= m@);
    }
    r
}

impl<K: OrderedKey + Replica, V: Replica> Clone for OrderedMap<K, V> {
    fn clone(&self) -> (r: Self)
        ensures
            r@ == self@,
    {
        map_replica(self)
    }
}

/// `Arc::clone`: another handle to the same value.
#[verifier::external_body]
pub(crate) fn share<T>(value: &Arc<T>) -> (r: Arc<T>)
    ensures
        r == *value,
{
    Arc::clone(value)
}

/// `Arc::unwrap_or_clone`: the value itself where this is the only handle, and otherwise a clone of
/// it.
#[verifier::external_body]
pub(crate) fn unshare<T: Clone>(value: Arc<T>) -> (r: T)
    ensures
        r == *value || cloned(*value, r),
{
    Arc::unwrap_or_clone(value)
}

} // verus!
