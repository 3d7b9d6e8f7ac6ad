//! Key/value cache.

use std::collections::HashMap;
use std::hash::Hash;
use vstd::prelude::*;

verus! {

broadcast use vstd::std_specs::hash::group_hash_axioms;

/// Cache that remembers the result for each key.
#[derive(Debug)]
pub struct Cache<K, V> {
    inner: HashMap<K, V>,
}

impl<K, V> Cache<K, V> {
    /// The cached results.
    pub closed spec fn view(&self) -> Map<K, V> {
        self.inner@
    }

    /// Creates an empty cache.
    pub fn new() -> (r: Self)
        ensures
            r@ == Map::<K, V>::empty(),
    {
        Cache { inner: HashMap::new() }
    }
}

impl<K, V> Default for Cache<K, V> {
    fn default() -> (r: Self)
        ensures
            r@ == Map::<K, V>::empty(),
    {
        Self::new()
    }
}

impl<K: Eq + Hash + Copy, V: Clone> Cache<K, V> {
    /// Retrieves the value for `key`, or inserts a new one created by `f`.
    ///
    /// `f` runs only for a key that is not cached yet: a cached key gets a clone of its value,
    /// and the cache is left as it was. For a new key, the result of `f(key)` is cached and a
    /// clone of it is returned.
    pub fn get_or_insert_with<F: FnOnce(K) -> V>(&mut self, key: K, f: F) -> (r: V)
        requires
            vstd::std_specs::hash::obeys_key_model::<K>(),
            !old(self)@.contains_key(key) ==> f.requires((key,)),
        ensures
            old(self)@.contains_key(key) ==> final(self)@ == old(self)@ && cloned(old(self)@[key], r),
            !old(self)@.contains_key(key) ==> final(self)@.contains_key(key) && final(self)@ == old(self)@.insert(key, final(self)@[key]) && f.ensures((key,), final(self)@[key]) && cloned(final(self)@[key], r),
    {
        match self.inner.get(&key) {
            Some(v) => {
                return v.clone();
            },
            None => {},
        }
        let v = f(key);
        let r = v.clone();
        self.inner.insert(key, v);
        r
    }
}

} // verus!
