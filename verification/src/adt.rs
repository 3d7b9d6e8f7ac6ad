//! Abstract data types.

use vstd::prelude::*;

verus! {

/// A key-value map, seen through the mathematical map it holds.
pub trait ConcurrentMap<K, V> {
    /// The entries of the map.
    spec fn entries(&self) -> Map<K, V>;

    /// The map's own well-formedness invariant.
    spec fn inv(&self) -> bool;

    /// The keys that the map can hold.
    spec fn accepts(key: K) -> bool;

    /// Looks up the given key and returns a reference to its value. Leaves the entries as they
    /// are (it may prepare internal structure on the way).
    fn lookup(&mut self, key: &K) -> (r: Option<&V>)
        requires
            old(self).inv(),
            Self::accepts(*key),
        ensures
            final(self).inv(),
            final(self).entries() == old(self).entries(),
            r matches Some(v) ==> old(self).entries().contains_key(*key)
                && old(self).entries()[*key] == *v,
            r is None ==> !old(self).entries().contains_key(*key),
    ;

    /// Inserts a key-value pair. Where the key is already present, nothing changes and the
    /// value is handed back.
    fn insert(&mut self, key: K, value: V) -> (r: Result<(), V>)
        requires
            old(self).inv(),
            Self::accepts(key),
        ensures
            final(self).inv(),
            old(self).entries().contains_key(key) ==> r == Err::<(), V>(value)
                && final(self).entries() == old(self).entries(),
            !old(self).entries().contains_key(key) ==> r is Ok
                && final(self).entries() == old(self).entries().insert(key, value),
    ;

    /// Deletes the given key and returns its value; `Err(())` where the key is absent.
    fn delete(&mut self, key: &K) -> (r: Result<V, ()>)
        requires
            old(self).inv(),
            Self::accepts(*key),
        ensures
            final(self).inv(),
            old(self).entries().contains_key(*key) ==> r == Ok::<V, ()>(old(self).entries()[*key])
                && final(self).entries() == old(self).entries().remove(*key),
            !old(self).entries().contains_key(*key) ==> r == Err::<V, ()>(())
                && final(self).entries() == old(self).entries(),
    ;
}

/// A set of values, seen through the mathematical set it holds.
pub trait ConcurrentSet<T> {
    /// The values in the set.
    spec fn elements(&self) -> Set<T>;

    /// The set's own well-formedness invariant.
    spec fn inv(&self) -> bool;

    /// Returns `true` iff the set contains the value.
    fn contains(&self, value: &T) -> (r: bool)
        requires
            self.inv(),
        ensures
            r == self.elements().contains(*value),
    ;

    /// Adds the value to the set. Returns whether the value was newly inserted.
    fn insert(&mut self, value: T) -> (r: bool)
        requires
            old(self).inv(),
        ensures
            final(self).inv(),
            r == !old(self).elements().contains(value),
            final(self).elements() == old(self).elements().insert(value),
    ;

    /// Removes the value from the set. Returns whether the value was present in the set.
    fn remove(&mut self, value: &T) -> (r: bool)
        requires
            old(self).inv(),
        ensures
            final(self).inv(),
            r == old(self).elements().contains(*value),
            final(self).elements() == old(self).elements().remove(*value),
    ;
}

} // verus!
