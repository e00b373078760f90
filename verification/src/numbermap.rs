//! An ordered map from numbers, kept by their bytes.

use vstd::prelude::*;

use crate::bytemap::ByteMap;
use crate::codec::be64;
use crate::transfer::{lemma_number_key, number_key};

verus! {

/// A map from numbers to values.
pub struct NumberMap<T> {
    entries: ByteMap<(u64, T)>,
}

impl<T> View for NumberMap<T> {
    type V = Map<u64, T>;

    closed spec fn view(&self) -> Map<u64, T> {
        Map::new(|k: u64| self.entries@.contains_key(be64(k)), |k: u64| self.entries@[be64(k)].1)
    }
}

impl<T> NumberMap<T> {
    #[verifier::type_invariant]
    spec fn numbered(&self) -> bool {
        forall|bytes: Seq<u8>| #[trigger]
            self.entries@.contains_key(bytes) ==> bytes == be64(self.entries@[bytes].0)
    }

    /// The keys in increasing order.
    pub closed spec fn keys(&self) -> Seq<u64> {
        Seq::new(self.entries.values().len(), |i: int| self.entries.values()[i].0)
    }

    /// The values in the order of their keys.
    pub closed spec fn values(&self) -> Seq<T> {
        Seq::new(self.entries.values().len(), |i: int| self.entries.values()[i].1)
    }

    /// The empty map.
    pub fn new() -> (map: Self)
        ensures
            map@ == Map::<u64, T>::empty(),
    {
        let map = NumberMap { entries: ByteMap::new() };
        assert(map@ =~= Map::<u64, T>::empty());
        map
    }

    /// The value stored under a key.
    pub fn get(&self, key: u64) -> (value: Option<&T>)
        ensures
            match value {
                Some(v) => self@.contains_key(key) && *v == self@[key],
                None => !self@.contains_key(key),
            },
    {
        let bytes = number_key(key);
        match self.entries.get(bytes.as_slice()) {
            Some(entry) => Some(&entry.1),
            None => None,
        }
    }

    /// Whether a key is present.
    pub fn contains(&self, key: u64) -> (present: bool)
        ensures
            present == self@.contains_key(key),
    {
        self.get(key).is_some()
    }

    /// Stores a value under a key and hands back the value that was there.
    pub fn insert(&mut self, key: u64, value: T) -> (previous: Option<T>)
        ensures
            final(self)@ == old(self)@.insert(key, value),
            match previous {
                Some(v) => old(self)@.contains_key(key) && v == old(self)@[key],
                None => !old(self)@.contains_key(key),
            },
    {
        proof {
            use_type_invariant(&*self);
        }
        let ghost before = self.entries@;
        let bytes = number_key(key);
        let mut entries: ByteMap<(u64, T)> = ByteMap::new();
        std::mem::swap(&mut entries, &mut self.entries);
        let previous = entries.insert(bytes, (key, value));
        proof {
            assert forall|b: Seq<u8>| #[trigger] entries@.contains_key(b) implies b == be64(entries@[b].0) by {
                if b != be64(key) {
                    assert(before.contains_key(b));
                }
            }
        }
        self.entries = entries;
        proof {
            assert forall|k: u64| #[trigger] be64(k) == be64(key) implies k == key by {
                lemma_number_key(k, key);
            }
            assert(self@ =~= old(self)@.insert(key, value));
        }
        match previous {
            Some(entry) => Some(entry.1),
            None => None,
        }
    }

    /// Takes a key out and hands back its value.
    pub fn remove(&mut self, key: u64) -> (previous: Option<T>)
        ensures
            final(self)@ == old(self)@.remove(key),
            match previous {
                Some(v) => old(self)@.contains_key(key) && v == old(self)@[key],
                None => !old(self)@.contains_key(key),
            },
    {
        proof {
            use_type_invariant(&*self);
        }
        let ghost before = self.entries@;
        let bytes = number_key(key);
        let mut entries: ByteMap<(u64, T)> = ByteMap::new();
        std::mem::swap(&mut entries, &mut self.entries);
        let previous = entries.remove(bytes.as_slice());
        proof {
            assert forall|b: Seq<u8>| #[trigger] entries@.contains_key(b) implies b == be64(entries@[b].0) by {
                assert(before.contains_key(b));
            }
        }
        self.entries = entries;
        proof {
            assert forall|k: u64| #[trigger] be64(k) == be64(key) implies k == key by {
                lemma_number_key(k, key);
            }
            assert(self@ =~= old(self)@.remove(key));
        }
        match previous {
            Some(entry) => Some(entry.1),
            None => None,
        }
    }

    /// The keys are distinct, and they are the keys of the map.
    pub fn order_known(&self)
        ensures
            self.keys().len() == self.values().len(),
            self.keys().no_duplicates(),
            self@.dom() == self.keys().to_set(),
            self@.dom().finite(),
            self@.dom().len() == self.keys().len(),
            forall|i: int| 0 <= i < self.keys().len() ==> self@.contains_key(#[trigger] self.keys()[i]),
            forall|i: int| 0 <= i < self.keys().len() ==> self@[#[trigger] self.keys()[i]] == self.values()[i],
            forall|k: u64| #[trigger] self@.contains_key(k) ==> self.keys().contains(k),
    {
        self.entries.order_known();
        proof {
            use_type_invariant(self);
            let bytes = self.entries.keys();
            let keys = self.keys();
            assert forall|i: int| 0 <= i < keys.len() implies bytes[i] == be64(#[trigger] keys[i]) by {
                assert(self.entries@.contains_key(bytes[i]));
                assert(self.entries@[bytes[i]] == self.entries.values()[i]);
            }
            assert forall|i: int, j: int| 0 <= i < keys.len() && 0 <= j < keys.len() && i != j implies keys[i]
                != keys[j] by {
                assert(bytes[i] != bytes[j]);
                assert(bytes[i] == be64(keys[i]));
                assert(bytes[j] == be64(keys[j]));
            }
            assert forall|k: u64| #[trigger] self@.contains_key(k) implies keys.contains(k) by {
                assert(self.entries@.contains_key(be64(k)));
                let i = bytes.index_of(be64(k));
                assert(bytes[i] == be64(k));
                assert(bytes[i] == be64(keys[i]));
                lemma_number_key(k, keys[i]);
                assert(keys[i] == k);
            }
            assert forall|i: int| 0 <= i < keys.len() implies self@.contains_key(#[trigger] keys[i]) by {
                assert(self.entries@.contains_key(bytes[i]));
                assert(bytes[i] == be64(keys[i]));
            }
            assert forall|i: int| 0 <= i < keys.len() implies self@[#[trigger] keys[i]] == self.values()[i] by {
                assert(bytes[i] == be64(keys[i]));
                assert(self.entries@[bytes[i]] == self.entries.values()[i]);
            }
            keys.unique_seq_to_set();
            assert(self@.dom() =~= keys.to_set());
        }
    }

    /// The number of entries.
    pub fn len(&self) -> (count: usize)
        ensures
            count == self.keys().len(),
            self@.dom().finite(),
            count == self@.dom().len(),
    {
        self.order_known();
        self.entries.order_known();
        self.entries.len()
    }

    /// The key at a position of the order.
    pub fn key_at(&self, at: usize) -> (key: u64)
        requires
            at < self.keys().len(),
        ensures
            key == self.keys()[at as int],
    {
        self.entries.order_known();
        self.entries.value_at(at).0
    }

    /// The value at a position of the order.
    pub fn value_at(&self, at: usize) -> (value: &T)
        requires
            at < self.keys().len(),
        ensures
            *value == self.values()[at as int],
    {
        self.entries.order_known();
        &self.entries.value_at(at).1
    }
}

} // verus!
