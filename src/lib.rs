use std::collections::hash_map::RandomState;
use std::hash::{BuildHasher, Hash};
use vstd::prelude::*;
use vstd::std_specs::cmp::PartialEqSpec;

pub mod bits;
pub mod probing;
pub mod sparse_array;

pub use sparse_array::SparseArray;

use probing::{
    has_free_slot, insert_outcome, lemma_first_stop_unique, lemma_probe_reaches, lookup_outcome,
    probe_index, probe_outcome, slot_for, stops,
};

verus! {

/// A hash map over a sparse array: each key goes to the first slot of its probe sequence
/// (its hash, then the following indices) that is empty or already holds the key.
pub struct SparseMap<K, V, H = RandomState> {
    table: SparseArray<(K, V)>,
    hasher_builder: H,
}

/// Relies on BuildHasher::hash_one: the hash of `key` under a hasher that `builder` makes.
/// The result depends on the builder's seed, so nothing is stated of it.
#[verifier::external_body]
fn hash_key<K: Hash, H: BuildHasher>(builder: &H, key: &K) -> u64 {
    builder.hash_one(key)
}

impl<K, V, H> SparseMap<K, V, H> {
    /// The slot space: each occupied index with the pair stored there.
    pub closed spec fn view(&self) -> vstd::map::Map<u64, (K, V)> {
        self.table@
    }

    /// The hash strategy, fixed for the map's lifetime.
    pub closed spec fn hasher(&self) -> H {
        self.hasher_builder
    }

    /// The table underneath is well formed.
    pub closed spec fn wf(&self) -> bool {
        self.table.wf()
    }

    /// An empty map that hashes with `hasher_builder`.
    pub fn with_hasher(hasher_builder: H) -> (r: Self)
        ensures
            r.wf(),
            r@ == vstd::map::Map::<u64, (K, V)>::empty(),
            r.hasher() == hasher_builder,
    {
        SparseMap { table: SparseArray::new(), hasher_builder }
    }
}

impl<K: PartialEq, V, H> SparseMap<K, V, H> {
    /// Walks the probe sequence of `hash` to the first slot that is empty or holds `key`.
    /// Returns that slot and the value there. Some index must be free: a table that held
    /// every index would leave the walk without an end.
    pub fn probe(&self, hash: u64, key: &K) -> (r: (u64, Option<&V>))
        requires
            self.wf(),
            K::obeys_eq_spec(),
            has_free_slot(self@),
        ensures
            slot_for(self@, hash, *key) is Some,
            probe_outcome(self@, hash, *key, r),
    {
        let mut index = hash;
        let mut steps: u64 = 0;
        loop
            invariant
                self.wf(),
                K::obeys_eq_spec(),
                has_free_slot(self@),
                index == probe_index(hash, steps as int),
                forall|j: int| 0 <= j < steps ==> !stops(self@, hash, *key, j),
            decreases u64::MAX - steps,
        {
            match self.table.get(index) {
                None => {
                    proof {
                        lemma_first_stop_unique(self@, hash, *key, steps as int);
                    }
                    return (index, None);
                },
                Some(pair) => {
                    if pair.0.eq(key) {
                        proof {
                            lemma_first_stop_unique(self@, hash, *key, steps as int);
                        }
                        return (index, Some(&pair.1));
                    }
                },
            }
            proof {
                assert(!stops(self@, hash, *key, steps as int));
                if steps == u64::MAX {
                    // Every index would hold another key, yet one is free.
                    let i = choose|i: u64| !self@.contains_key(i);
                    let j = lemma_probe_reaches(hash, i);
                    assert(stops(self@, hash, *key, j));
                }
            }
            index = index.wrapping_add(1);
            steps = steps + 1;
            proof {
                let prev = probe_index(hash, steps - 1);
                assert(index == probe_index(hash, steps as int)) by (nonlinear_arith)
                    requires
                        index == (if prev == u64::MAX {
                            0
                        } else {
                            prev + 1
                        }),
                        prev == probe_index(hash, steps - 1),
                ;
            }
        }
    }

    /// The value stored under `key`, probing from `hash`.
    pub fn get_hashed(&self, hash: u64, key: &K) -> (r: Option<&V>)
        requires
            self.wf(),
            K::obeys_eq_spec(),
            has_free_slot(self@),
        ensures
            lookup_outcome(self@, hash, *key, r),
    {
        self.probe(hash, key).1
    }

    /// Hashes `key` with the map's hash strategy and probes from there.
    pub fn raw_entry(&self, key: &K) -> (r: (u64, Option<&V>)) where K: Hash, H: BuildHasher
        requires
            self.wf(),
            K::obeys_eq_spec(),
            has_free_slot(self@),
        ensures
            exists|hash: u64| probe_outcome(self@, hash, *key, r),
    {
        let hash = hash_key(&self.hasher_builder, key);
        self.probe(hash, key)
    }

    /// The value stored under `key`.
    pub fn get(&self, key: &K) -> (r: Option<&V>) where K: Hash, H: BuildHasher
        requires
            self.wf(),
            K::obeys_eq_spec(),
            has_free_slot(self@),
        ensures
            exists|hash: u64| lookup_outcome(self@, hash, *key, r),
    {
        let r = self.raw_entry(key);
        proof {
            let hash = choose|hash: u64| probe_outcome(self@, hash, *key, r);
            assert(lookup_outcome(self@, hash, *key, r.1));
        }
        r.1
    }
}

impl<K: PartialEq + Clone, V: Clone, H> SparseMap<K, V, H> {
    /// Stores `value` under `key`, probing from `hash`; returns the value that was stored
    /// under `key` before.
    pub fn insert_hashed(&mut self, hash: u64, key: K, value: V) -> (r: Option<V>)
        requires
            old(self).wf(),
            K::obeys_eq_spec(),
            has_free_slot(old(self)@),
        ensures
            final(self).wf(),
            final(self).hasher() == old(self).hasher(),
            insert_outcome(old(self)@, final(self)@, hash, key, value, r),
    {
        let (index, found) = self.probe(hash, &key);
        let previous = match found {
            Some(v) => Some(v.clone()),
            None => None,
        };
        self.table.set(index, (key, value));
        previous
    }

    /// Stores `value` under `key`; returns the value that was stored under `key` before.
    /// Some index must still be free. The map keeps its hash strategy.
    pub fn insert(&mut self, key: K, value: V) -> (r: Option<V>) where K: Hash, H: BuildHasher
        requires
            old(self).wf(),
            K::obeys_eq_spec(),
            has_free_slot(old(self)@),
        ensures
            final(self).wf(),
            final(self).hasher() == old(self).hasher(),
            exists|hash: u64| insert_outcome(old(self)@, final(self)@, hash, key, value, r),
    {
        let hash = hash_key(&self.hasher_builder, &key);
        self.insert_hashed(hash, key, value)
    }
}

impl<K, V, H: Default> Default for SparseMap<K, V, H> {
    fn default() -> (r: Self)
        ensures
            r.wf(),
            r@ == vstd::map::Map::<u64, (K, V)>::empty(),
    {
        SparseMap::with_hasher(H::default())
    }
}

impl<K, V, H: Clone> Clone for SparseMap<K, V, H> {
    /// A copy that shares the table's nodes with the original.
    fn clone(&self) -> (r: Self)
        ensures
            r@ == self@,
            r.wf() == self.wf(),
            cloned(self.hasher(), r.hasher()),
    {
        SparseMap { table: self.table.clone(), hasher_builder: self.hasher_builder.clone() }
    }
}

} // verus!
