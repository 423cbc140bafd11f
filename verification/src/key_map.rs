//! Maps and sets of points and of node ids.
//!
//! The entries lie in a vector, in the order of their insertion (a removal moves the last
//! entry into the gap), and a hash map says where the entry of a key lies. Walking over
//! the entries is therefore the same in every run.

use std::collections::HashMap;

use vstd::prelude::*;

use crate::{NodeID, Point};

verus! {

broadcast use vstd::std_specs::hash::group_hash_axioms;

/// A key of a [`KeyMap`], told apart from others by a number.
pub trait MapKey: Sized {
    /// The number of the key.
    spec fn code(self) -> u128;

    /// Keys of the same number are equal.
    proof fn lemma_code(a: Self, b: Self)
        ensures
            a.code() == b.code() ==> a == b,
    ;

    /// Computes the number of the key.
    fn to_code(&self) -> (code: u128)
        ensures
            code == self.code(),
    ;
}

impl MapKey for Point {
    open spec fn code(self) -> u128 {
        (self.1 * 0x1_0000_0000_0000_0000 + self.0) as u128
    }

    proof fn lemma_code(a: Self, b: Self) {
    }

    fn to_code(&self) -> (code: u128) {
        self.1 as u128 * 0x1_0000_0000_0000_0000 + self.0 as u128
    }
}

impl MapKey for NodeID {
    open spec fn code(self) -> u128 {
        self as u128
    }

    proof fn lemma_code(a: Self, b: Self) {
    }

    fn to_code(&self) -> (code: u128) {
        *self as u128
    }
}

/// A map that remembers the order in which its keys were inserted.
#[derive(Debug)]
pub struct KeyMap<K, V> {
    index: HashMap<u128, usize>,
    entries: Vec<(K, V)>,
}

/// A map with positions on the grid as keys.
pub type PointMap<V> = KeyMap<Point, V>;

/// A set of positions on the grid.
pub type PointSet = KeyMap<Point, ()>;

/// A map with node ids as keys.
pub type NodeIDMap<V> = KeyMap<NodeID, V>;

/// A set of node ids.
pub type NodeIDSet = KeyMap<NodeID, ()>;

impl<K: MapKey, V> View for KeyMap<K, V> {
    type V = Map<K, V>;

    closed spec fn view(&self) -> Map<K, V> {
        Map::new(
            |k: K| self.index@.contains_key(k.code()),
            |k: K| self.entries@[self.index@[k.code()] as int].1,
        )
    }
}

impl<K: MapKey, V> KeyMap<K, V> {
    /// Each entry lies where the index says.
    pub closed spec fn wf(&self) -> bool {
        &&& forall|i: int|
            0 <= i < self.entries@.len() ==> {
                &&& self.index@.contains_key((#[trigger] self.entries@[i]).0.code())
                &&& self.index@[self.entries@[i].0.code()] == i
            }
        &&& forall|c: u128| #[trigger]
            self.index@.contains_key(c) ==> {
                &&& self.index@[c] < self.entries@.len()
                &&& self.entries@[self.index@[c] as int].0.code() == c
            }
    }

    /// The entries in the order in which they are walked over.
    pub closed spec fn entries(&self) -> Seq<(K, V)> {
        self.entries@
    }

    /// The entries are those of the map, each key once.
    pub proof fn lemma_entries(&self)
        requires
            self.wf(),
        ensures
            forall|i: int|
                0 <= i < self.entries().len() ==> {
                    &&& self@.contains_key((#[trigger] self.entries()[i]).0)
                    &&& self@[self.entries()[i].0] == self.entries()[i].1
                },
            forall|k: K| #[trigger]
                self@.contains_key(k) ==> exists|i: int|
                    0 <= i < self.entries().len() && #[trigger] self.entries()[i] == (k, self@[k]),
            forall|i: int, j: int|
                0 <= i < j < self.entries().len() ==> (#[trigger] self.entries()[i]).0 != (
                #[trigger] self.entries()[j]).0,
    {
        assert forall|k: K| #[trigger] self@.contains_key(k) implies exists|i: int|
            0 <= i < self.entries().len() && #[trigger] self.entries()[i] == (k, self@[k]) by {
            let i = self.index@[k.code()] as int;
            K::lemma_code(self.entries()[i].0, k);
            assert(self.entries()[i] == (k, self@[k]));
        }
    }

    /// There are as many entries as keys.
    pub proof fn lemma_len(&self)
        requires
            self.wf(),
        ensures
            self@.dom().finite(),
            self@.dom().len() == self.entries().len(),
    {
        self.lemma_entries();
        let keys = self.entries().map_values(|entry: (K, V)| entry.0);
        assert(keys.to_set() =~= self@.dom()) by {
            assert forall|k: K| self@.contains_key(k) implies keys.to_set().contains(k) by {
                let i = choose|i: int|
                    0 <= i < self.entries().len() && #[trigger] self.entries()[i] == (k, self@[k]);
                assert(keys[i] == k);
            }
        }
        assert(keys.no_duplicates()) by {
            assert forall|i: int, j: int| 0 <= i < j < keys.len() implies keys[i] != keys[j] by {
                assert(self.entries()[i].0 != self.entries()[j].0);
            }
        }
        keys.unique_seq_to_set();
    }

    /// An empty map.
    pub fn new() -> (map: Self)
        ensures
            map.wf(),
            map@ == Map::<K, V>::empty(),
            map.entries() == Seq::<(K, V)>::empty(),
    {
        let map = KeyMap { index: HashMap::new(), entries: Vec::new() };
        assert(map@ =~= Map::<K, V>::empty());
        map
    }

    /// The number of entries.
    pub fn len(&self) -> (len: usize)
        ensures
            len == self.entries().len(),
    {
        self.entries.len()
    }

    /// Whether there is no entry.
    pub fn is_empty(&self) -> (empty: bool)
        requires
            self.wf(),
        ensures
            empty == (self@ == Map::<K, V>::empty()),
    {
        proof {
            self.lemma_entries();
            if self.entries@.len() > 0 {
                assert(self@.contains_key(self.entries()[0].0));
            } else {
                assert(self@ =~= Map::<K, V>::empty());
            }
        }
        self.entries.len() == 0
    }

    /// The `i`-th entry.
    pub fn entry_at(&self, i: usize) -> (entry: &(K, V))
        requires
            i < self.entries().len(),
        ensures
            *entry == self.entries()[i as int],
    {
        &self.entries[i]
    }

    /// Whether the map has an entry with the key.
    pub fn contains_key(&self, key: &K) -> (found: bool)
        ensures
            found == self@.contains_key(*key),
    {
        self.index.contains_key(&key.to_code())
    }

    /// The value of the key.
    pub fn get(&self, key: &K) -> (value: Option<&V>)
        requires
            self.wf(),
        ensures
            match value {
                Some(value) => self@.contains_key(*key) && *value == self@[*key],
                None => !self@.contains_key(*key),
            },
    {
        match self.index.get(&key.to_code()) {
            Some(i) => Some(&self.entries[*i].1),
            None => None,
        }
    }

    /// Gives the key a value, in place of the one it had.
    pub fn insert(&mut self, key: K, value: V)
        requires
            old(self).wf(),
        ensures
            final(self).wf(),
            final(self)@ == old(self)@.insert(key, value),
    {
        let code: u128 = key.to_code();
        let ghost before = *self;
        match self.index.get(&code) {
            Some(i) => {
                let i: usize = *i;
                self.entries[i] = (key, value);
            },
            None => {
                self.index.insert(code, self.entries.len());
                self.entries.push((key, value));
            },
        }
        proof {
            assert forall|k: K| k.code() == code implies k == key by {
                K::lemma_code(k, key);
            }
            assert(self@ =~= before@.insert(key, value));
        }
    }

    /// Removes the entry of the key.
    pub fn remove(&mut self, key: &K) -> (value: Option<V>)
        requires
            old(self).wf(),
        ensures
            final(self).wf(),
            final(self)@ == old(self)@.remove(*key),
            match value {
                Some(value) => old(self)@.contains_key(*key) && value == old(self)@[*key],
                None => !old(self)@.contains_key(*key),
            },
    {
        let code: u128 = key.to_code();
        let ghost before = *self;
        proof {
            assert forall|k: K| k.code() == code implies k == *key by {
                K::lemma_code(k, *key);
            }
        }
        let i: usize = match self.index.get(&code) {
            Some(i) => *i,
            None => {
                assert(self@ =~= before@.remove(*key));
                return None;
            },
        };
        let last: usize = self.entries.len() - 1;
        let moved: u128 = self.entries[last].0.to_code();
        self.index.insert(moved, i);
        self.index.remove(&code);
        let entry: (K, V) = self.entries.swap_remove(i);
        proof {
            assert forall|c: u128| #[trigger] self.index@.contains_key(c) implies {
                &&& self.index@[c] < self.entries@.len()
                &&& self.entries@[self.index@[c] as int].0.code() == c
            } by {
                assert(before.index@.contains_key(c));
            }
            assert(self.wf());
            assert(self@ =~= before@.remove(*key));
        }
        Some(entry.1)
    }

    /// The entries, in the order in which they are walked over.
    pub fn into_entries(self) -> (entries: Vec<(K, V)>)
        ensures
            entries@ == self.entries(),
    {
        self.entries
    }

    /// Removes every entry.
    pub fn clear(&mut self)
        ensures
            final(self).wf(),
            final(self)@ == Map::<K, V>::empty(),
    {
        self.index.clear();
        self.entries.clear();
        assert(self@ =~= Map::<K, V>::empty());
    }
}

impl<K: MapKey + Copy, V: Clone> Clone for KeyMap<K, V> {
    fn clone(&self) -> (copy: Self)
        ensures
            copy.wf(),
            self.wf() ==> copy@.dom() == self@.dom(),
            self.wf() ==> forall|k: K| #[trigger]
                self@.contains_key(k) ==> cloned(self@[k], copy@[k]),
    {
        let mut copy: KeyMap<K, V> = KeyMap::new();
        for i in 0..self.entries.len()
            invariant
                copy.wf(),
                self.wf() ==> forall|k: K| #[trigger]
                    copy@.contains_key(k) <==> self.index@.contains_key(k.code())
                        && self.index@[k.code()] < i,
                self.wf() ==> forall|k: K| #[trigger]
                    copy@.contains_key(k) ==> cloned(self@[k], copy@[k]),
        {
            let key: K = self.entries[i].0;
            let value: V = self.entries[i].1.clone();
            let ghost previous = copy@;
            copy.insert(key, value);
            proof {
                if self.wf() {
                    assert(self.entries@[i as int].0 == key);
                    assert forall|k: K| #[trigger] copy@.contains_key(k)
                        <==> self.index@.contains_key(k.code()) && self.index@[k.code()] < i + 1 by {
                        if self.index@.contains_key(k.code()) && self.index@[k.code()] == i {
                            K::lemma_code(k, key);
                        }
                    }
                    assert forall|k: K| #[trigger] copy@.contains_key(k) implies cloned(
                        self@[k],
                        copy@[k],
                    ) by {
                        if k != key {
                            assert(previous.contains_key(k));
                        }
                    }
                }
            }
        }
        proof {
            if self.wf() {
                assert(copy@.dom() =~= self@.dom());
            }
        }
        copy
    }
}

} // verus!
