//! Dense entity-to-data maps.
//!
//! A `PrimaryMap` is a vector indexed by entities: pushing a value hands back
//! the entity whose index is the position of that value.

use vstd::prelude::*;
use core::marker::PhantomData;

use crate::entity::EntityRef;

verus! {

/// Dense map from entity to data.
#[derive(Debug)]
pub struct PrimaryMap<K: EntityRef, V> {
    data: Vec<V>,
    _phantom: PhantomData<K>,
}

impl<K: EntityRef, V> View for PrimaryMap<K, V> {
    type V = Seq<V>;

    /// The stored values, in index order.
    closed spec fn view(&self) -> Seq<V> {
        self.data@
    }
}

impl<K: EntityRef, V: Clone> Clone for PrimaryMap<K, V> {
    fn clone(&self) -> (r: Self)
        ensures
            r@.len() == self@.len(),
    {
        PrimaryMap { data: self.data.clone(), _phantom: PhantomData }
    }
}

impl<K: EntityRef, V> PrimaryMap<K, V> {
    /// Create a new empty PrimaryMap
    pub fn new() -> (r: Self)
        ensures
            r@ == Seq::<V>::empty(),
    {
        Self { data: Vec::new(), _phantom: PhantomData }
    }

    /// Create a new PrimaryMap with the specified capacity
    pub fn with_capacity(capacity: usize) -> (r: Self)
        ensures
            r@ == Seq::<V>::empty(),
    {
        Self { data: Vec::with_capacity(capacity), _phantom: PhantomData }
    }

    /// Push a value and return its entity key.
    ///
    /// The key's index is the length of the map before the push.
    pub fn push(&mut self, value: V) -> (k: K)
        requires
            old(self)@.len() <= u32::MAX,
        ensures
            final(self)@ == old(self)@.push(value),
            k.ent_index() == old(self)@.len(),
    {
        let index = self.data.len();
        self.data.push(value);
        K::from_index(index)
    }

    /// Get a value by entity key
    pub fn get(&self, key: K) -> (r: Option<&V>)
        ensures
            key.ent_index() < self@.len() ==> r == Some(&self@[key.ent_index() as int]),
            key.ent_index() >= self@.len() ==> r is None,
    {
        let i = key.index();
        if i < self.data.len() {
            Some(&self.data[i])
        } else {
            None
        }
    }

    /// Get a value by an entity key that is known to be present.
    pub fn at(&self, key: K) -> (r: &V)
        requires
            key.ent_index() < self@.len(),
        ensures
            *r == self@[key.ent_index() as int],
    {
        &self.data[key.index()]
    }

    /// Get a mutable value by entity key
    pub fn get_mut(&mut self, key: K) -> (r: Option<&mut V>)
        ensures
            key.ent_index() < old(self)@.len() ==> (r matches Some(v) && *v == old(self)@[
                key.ent_index() as int
            ] && final(self)@ == old(self)@.update(key.ent_index() as int, *final(v))),
            key.ent_index() >= old(self)@.len() ==> r is None && final(self)@ == old(self)@,
    {
        let i = key.index();
        if i < self.data.len() {
            Some(&mut self.data[i])
        } else {
            None
        }
    }

    /// Get capacity
    pub fn capacity(&self) -> (r: usize)
        ensures
            r >= self@.len(),
    {
        vec_capacity(&self.data)
    }

    /// Iterate over entries as (entity, value) pairs, in index order.
    pub fn iter(&self) -> (r: Vec<(K, &V)>)
        requires
            self@.len() <= u32::MAX + 1,
        ensures
            r@.len() == self@.len(),
            forall|i: int|
                0 <= i < r@.len() ==> (#[trigger] r@[i]).0.ent_index() == i && *r@[i].1
                    == self@[i],
    {
        let mut out: Vec<(K, &V)> = Vec::new();
        let mut i: usize = 0;
        while i < self.data.len()
            invariant
                i <= self.data@.len(),
                self.data@.len() <= u32::MAX + 1,
                out@.len() == i,
                forall|j: int|
                    0 <= j < i ==> (#[trigger] out@[j]).0.ent_index() == j && *out@[j].1
                        == self.data@[j],
            decreases self.data@.len() - i,
        {
            out.push((K::from_index(i), &self.data[i]));
            i = i + 1;
        }
        out
    }

    /// Mutable access to all values, in index order.
    pub fn values_mut(&mut self) -> (r: &mut Vec<V>)
        ensures
            r@ == old(self)@,
            final(self)@ == final(r)@,
    {
        &mut self.data
    }

    /// Replace the value stored under `key`; returns whether the key exists.
    pub fn set(&mut self, key: K, value: V) -> (r: bool)
        ensures
            r == (key.ent_index() < old(self)@.len()),
            r ==> final(self)@ == old(self)@.update(key.ent_index() as int, value),
            !r ==> final(self)@ == old(self)@,
    {
        let i = key.index();
        if i < self.data.len() {
            self.data.set(i, value);
            true
        } else {
            false
        }
    }

    /// Get length
    pub fn len(&self) -> (r: usize)
        ensures
            r == self@.len(),
    {
        self.data.len()
    }

    /// Check if empty
    pub fn is_empty(&self) -> (r: bool)
        ensures
            r == (self@.len() == 0),
    {
        self.data.len() == 0
    }

    /// Reserve capacity for at least `additional` more elements
    pub fn reserve(&mut self, additional: usize)
        ensures
            final(self)@ == old(self)@,
    {
        self.data.reserve(additional);
    }

    /// Iterate over values (a copy of the values in index order)
    pub fn values(&self) -> (r: &Vec<V>)
        ensures
            r@ == self@,
    {
        &self.data
    }

    /// Clear all entries
    pub fn clear(&mut self)
        ensures
            final(self)@ == Seq::<V>::empty(),
    {
        self.data.clear();
    }
}

impl<K: EntityRef, V> Default for PrimaryMap<K, V> {
    fn default() -> (r: Self)
        ensures
            r@ == Seq::<V>::empty(),
    {
        Self::new()
    }
}

/// Capacity of a vector (`Vec::capacity`).
///
/// Its documentation promises a capacity of at least the length; what the
/// allocator hands out beyond that is not stated.
#[verifier::external_body]
fn vec_capacity<V>(v: &Vec<V>) -> (r: usize)
    ensures
        r >= v@.len(),
{
    v.capacity()
}

} // verus!
