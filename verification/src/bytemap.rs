//! An ordered map from byte strings, kept as a sorted vector.

use vstd::prelude::*;

use crate::bytes::{byte_order, lex_lt, ByteOrder};
use crate::bytes::{lemma_lex_asymmetric, lemma_lex_transitive};

verus! {

/// A map from byte strings to values. Entries are kept in lexicographic key order, each key once.
pub struct ByteMap<T> {
    entries: Vec<(Vec<u8>, T)>,
}

/// The keys of a list of entries, in order.
spec fn entry_keys<T>(entries: Seq<(Vec<u8>, T)>) -> Seq<Seq<u8>> {
    Seq::new(entries.len(), |i: int| entries[i].0@)
}

/// The values of a list of entries, in order.
spec fn entry_values<T>(entries: Seq<(Vec<u8>, T)>) -> Seq<T> {
    Seq::new(entries.len(), |i: int| entries[i].1)
}

/// Keys in strictly increasing order.
pub open spec fn strictly_sorted(keys: Seq<Seq<u8>>) -> bool {
    forall|i: int, j: int| 0 <= i < j < keys.len() ==> lex_lt(#[trigger] keys[i], #[trigger] keys[j])
}

/// The map that pairs each key with the value at its position.
pub open spec fn paired<T>(keys: Seq<Seq<u8>>, values: Seq<T>) -> Map<Seq<u8>, T> {
    Map::new(|k: Seq<u8>| keys.contains(k), |k: Seq<u8>| values[keys.index_of(k)])
}

/// Sorted keys are distinct, so each is found at its own position only.
proof fn lemma_sorted_distinct(keys: Seq<Seq<u8>>)
    requires
        strictly_sorted(keys),
    ensures
        keys.no_duplicates(),
        forall|i: int| 0 <= i < keys.len() ==> keys.index_of(#[trigger] keys[i]) == i,
{
    assert forall|i: int, j: int| 0 <= i < keys.len() && 0 <= j < keys.len() && i != j implies keys[i] != keys[j] by {
        if i < j {
            lemma_lex_asymmetric(keys[i], keys[j]);
        } else {
            lemma_lex_asymmetric(keys[j], keys[i]);
        }
    }
    assert forall|i: int| 0 <= i < keys.len() implies keys.index_of(#[trigger] keys[i]) == i by {
        assert(keys.contains(keys[i]));
        let k = keys.index_of(keys[i]);
        assert(0 <= k < keys.len() && keys[k] == keys[i]);
    }
}

impl<T> View for ByteMap<T> {
    type V = Map<Seq<u8>, T>;

    closed spec fn view(&self) -> Map<Seq<u8>, T> {
        paired(self.keys(), self.values())
    }
}

impl<T> ByteMap<T> {
    /// The keys in increasing order.
    pub closed spec fn keys(&self) -> Seq<Seq<u8>> {
        entry_keys(self.entries@)
    }

    /// The values in the order of their keys.
    pub closed spec fn values(&self) -> Seq<T> {
        entry_values(self.entries@)
    }

    #[verifier::type_invariant]
    spec fn sorted(&self) -> bool {
        strictly_sorted(entry_keys(self.entries@))
    }

    /// The empty map.
    pub fn new() -> (map: Self)
        ensures
            map@ == Map::<Seq<u8>, T>::empty(),
            map.keys().len() == 0,
    {
        let map = ByteMap { entries: Vec::new() };
        assert(map@ =~= Map::<Seq<u8>, T>::empty());
        map
    }

    /// Position of the first entry whose key is not before `key`.
    fn lower_bound(&self, key: &[u8]) -> (at: usize)
        ensures
            at <= self.entries@.len(),
            forall|i: int| 0 <= i < at ==> lex_lt(#[trigger] self.entries@[i].0@, key@),
            at < self.entries@.len() ==> self.entries@[at as int].0@ == key@ || lex_lt(key@, self.entries@[at as int].0@),
    {
        proof {
            use_type_invariant(self);
        }
        let ghost keys = entry_keys(self.entries@);
        assert(strictly_sorted(keys));
        let mut low: usize = 0;
        let mut high: usize = self.entries.len();
        while low < high
            invariant
                low <= high <= self.entries@.len(),
                keys == entry_keys(self.entries@),
                strictly_sorted(keys),
                forall|i: int| 0 <= i < low ==> lex_lt(#[trigger] self.entries@[i].0@, key@),
                high < self.entries@.len() ==> self.entries@[high as int].0@ == key@ || lex_lt(
                    key@,
                    self.entries@[high as int].0@,
                ),
            decreases high - low,
        {
            let middle: usize = low + (high - low) / 2;
            match byte_order(self.entries[middle].0.as_slice(), key) {
                ByteOrder::Before => {
                    proof {
                        assert forall|i: int| 0 <= i < middle + 1 implies lex_lt(
                            #[trigger] self.entries@[i].0@,
                            key@,
                        ) by {
                            if i < middle {
                                assert(lex_lt(keys[i], keys[middle as int]));
                                lemma_lex_transitive(keys[i], keys[middle as int], key@);
                            }
                        }
                    }
                    low = middle + 1;
                },
                ByteOrder::Same => {
                    proof {
                        assert forall|i: int| 0 <= i < middle implies lex_lt(#[trigger] self.entries@[i].0@, key@) by {
                            assert(lex_lt(keys[i], keys[middle as int]));
                        }
                    }
                    return middle;
                },
                ByteOrder::After => {
                    high = middle;
                },
            }
        }
        low
    }

    /// What a position says of a key's presence.
    proof fn lemma_position(&self, key: Seq<u8>, at: int)
        requires
            strictly_sorted(self.keys()),
            0 <= at <= self.keys().len(),
            forall|i: int| 0 <= i < at ==> lex_lt(#[trigger] self.keys()[i], key),
            at < self.keys().len() ==> self.keys()[at] == key || lex_lt(key, self.keys()[at]),
        ensures
            self@.contains_key(key) <==> at < self.keys().len() && self.keys()[at] == key,
            at < self.keys().len() && self.keys()[at] == key ==> self@[key] == self.values()[at],
    {
        let keys = self.keys();
        lemma_sorted_distinct(keys);
        if at < keys.len() && keys[at] == key {
            assert(keys.contains(key));
        } else if keys.contains(key) {
            let i = keys.index_of(key);
            assert(0 <= i < keys.len() && keys[i] == key);
            if i < at {
                lemma_lex_asymmetric(keys[i], key);
            } else {
                if i > at {
                    assert(lex_lt(keys[at], keys[i]));
                    lemma_lex_asymmetric(keys[at], key);
                }
                assert(false);
            }
        }
    }

    /// The entries of the view are exactly the keys at their positions, and they are distinct.
    pub proof fn lemma_positions(&self)
        requires
            strictly_sorted(self.keys()),
        ensures
            self.keys().len() == self.values().len(),
            self.keys().no_duplicates(),
            self@.dom() == self.keys().to_set(),
            self@.dom().finite(),
            self@.dom().len() == self.keys().len(),
            forall|i: int| 0 <= i < self.keys().len() ==> self@.contains_key(#[trigger] self.keys()[i]),
            forall|i: int|
                0 <= i < self.keys().len() ==> self@[#[trigger] self.keys()[i]] == self.values()[i],
            forall|k: Seq<u8>| #[trigger] self@.contains_key(k) ==> self.keys().contains(k),
    {
        lemma_sorted_distinct(self.keys());
        self.keys().unique_seq_to_set();
        assert(self@.dom() =~= self.keys().to_set());
        assert forall|i: int| 0 <= i < self.keys().len() implies self@.contains_key(#[trigger] self.keys()[i]) by {
            assert(self.keys().contains(self.keys()[i]));
        }
    }

    /// The keys are sorted, whatever the map.
    pub fn order_known(&self)
        ensures
            strictly_sorted(self.keys()),
            self.keys().len() == self.values().len(),
            self@.dom().finite(),
            self@.dom().len() == self.keys().len(),
            self@.dom() == self.keys().to_set(),
            forall|i: int| 0 <= i < self.keys().len() ==> self@.contains_key(#[trigger] self.keys()[i]),
            forall|i: int|
                0 <= i < self.keys().len() ==> self@[#[trigger] self.keys()[i]] == self.values()[i],
            forall|k: Seq<u8>| #[trigger] self@.contains_key(k) ==> self.keys().contains(k),
            self.keys().no_duplicates(),
    {
        proof {
            use_type_invariant(self);
            self.lemma_positions();
        }
    }

    /// The number of entries.
    pub fn len(&self) -> (count: usize)
        ensures
            count == self.keys().len(),
            self@.dom().finite(),
            count == self@.dom().len(),
    {
        proof {
            use_type_invariant(self);
            self.lemma_positions();
        }
        self.entries.len()
    }

    /// The key at a position of the order.
    pub fn key_at(&self, at: usize) -> (key: &Vec<u8>)
        requires
            at < self.keys().len(),
        ensures
            key@ == self.keys()[at as int],
    {
        &self.entries[at].0
    }

    /// The value at a position of the order.
    pub fn value_at(&self, at: usize) -> (value: &T)
        requires
            at < self.keys().len(),
        ensures
            *value == self.values()[at as int],
    {
        &self.entries[at].1
    }

    /// The value stored under a key.
    pub fn get(&self, key: &[u8]) -> (value: Option<&T>)
        ensures
            match value {
                Some(v) => self@.contains_key(key@) && *v == self@[key@],
                None => !self@.contains_key(key@),
            },
    {
        let at = self.lower_bound(key);
        proof {
            use_type_invariant(self);
            self.lemma_position(key@, at as int);
        }
        if at < self.entries.len() {
            match byte_order(self.entries[at].0.as_slice(), key) {
                ByteOrder::Same => Some(&self.entries[at].1),
                _ => {
                    proof {
                        if self.keys()[at as int] == key@ {
                            crate::bytes::lemma_lex_irreflexive(key@);
                        }
                    }
                    None
                },
            }
        } else {
            None
        }
    }

    /// Whether a key is present.
    pub fn contains(&self, key: &[u8]) -> (present: bool)
        ensures
            present == self@.contains_key(key@),
    {
        self.get(key).is_some()
    }

    /// Stores a value under a key and hands back the value that was there.
    pub fn insert(&mut self, key: Vec<u8>, value: T) -> (previous: Option<T>)
        ensures
            final(self)@ == old(self)@.insert(key@, value),
            match previous {
                Some(v) => old(self)@.contains_key(key@) && v == old(self)@[key@],
                None => !old(self)@.contains_key(key@),
            },
    {
        let at = self.lower_bound(key.as_slice());
        proof {
            use_type_invariant(&*self);
            self.lemma_position(key@, at as int);
        }
        let ghost before = *self;
        let ghost new_key = key@;
        let mut entries: Vec<(Vec<u8>, T)> = Vec::new();
        std::mem::swap(&mut entries, &mut self.entries);
        let ghost old_keys = entry_keys(entries@);
        let ghost old_values = entry_values(entries@);
        let present = if at < entries.len() {
            match byte_order(entries[at].0.as_slice(), key.as_slice()) {
                ByteOrder::Same => true,
                _ => {
                    proof {
                        if old_keys[at as int] == key@ {
                            crate::bytes::lemma_lex_irreflexive(key@);
                        }
                    }
                    false
                },
            }
        } else {
            false
        };
        proof {
            lemma_sorted_distinct(old_keys);
        }
        if present {
            let old_entry = entries.remove(at);
            entries.insert(at, (key, value));
            proof {
                let keys = entry_keys(entries@);
                assert(keys =~= old_keys);
                assert(entry_values(entries@) =~= old_values.update(at as int, value));
                assert(paired(keys, entry_values(entries@)) =~= before@.insert(new_key, value)) by {
                    assert forall|k: Seq<u8>| keys.contains(k) implies entry_values(entries@)[keys.index_of(k)]
                        == before@.insert(new_key, value)[k] by {
                        let i = keys.index_of(k);
                        assert(0 <= i < keys.len() && keys[i] == k);
                    }
                }
            }
            self.entries = entries;
            Some(old_entry.1)
        } else {
            entries.insert(at, (key, value));
            proof {
                let keys = entry_keys(entries@);
                let values = entry_values(entries@);
                assert(keys =~= old_keys.insert(at as int, new_key));
                assert(values =~= old_values.insert(at as int, value));
                lemma_insert_sorted(old_keys, at as int, new_key);
                lemma_insert_paired(old_keys, old_values, at as int, new_key, value);
            }
            self.entries = entries;
            None
        }
    }

    /// Takes a key out and hands back its value.
    pub fn remove(&mut self, key: &[u8]) -> (previous: Option<T>)
        ensures
            final(self)@ == old(self)@.remove(key@),
            match previous {
                Some(v) => old(self)@.contains_key(key@) && v == old(self)@[key@],
                None => !old(self)@.contains_key(key@),
            },
    {
        let at = self.lower_bound(key);
        proof {
            use_type_invariant(&*self);
            self.lemma_position(key@, at as int);
        }
        let ghost before = *self;
        let mut entries: Vec<(Vec<u8>, T)> = Vec::new();
        std::mem::swap(&mut entries, &mut self.entries);
        let ghost old_keys = entry_keys(entries@);
        let ghost old_values = entry_values(entries@);
        let present = if at < entries.len() {
            match byte_order(entries[at].0.as_slice(), key) {
                ByteOrder::Same => true,
                _ => {
                    proof {
                        if old_keys[at as int] == key@ {
                            crate::bytes::lemma_lex_irreflexive(key@);
                        }
                    }
                    false
                },
            }
        } else {
            false
        };
        if present {
            let old_entry = entries.remove(at);
            proof {
                let keys = entry_keys(entries@);
                let values = entry_values(entries@);
                assert(keys =~= old_keys.remove(at as int));
                assert(values =~= old_values.remove(at as int));
                lemma_remove_paired(old_keys, old_values, at as int);
            }
            self.entries = entries;
            Some(old_entry.1)
        } else {
            self.entries = entries;
            assert(before@.remove(key@) =~= before@);
            None
        }
    }
}

/// A new key at its place keeps the order.
proof fn lemma_insert_sorted(keys: Seq<Seq<u8>>, at: int, key: Seq<u8>)
    requires
        strictly_sorted(keys),
        0 <= at <= keys.len(),
        forall|i: int| 0 <= i < at ==> lex_lt(#[trigger] keys[i], key),
        at < keys.len() ==> lex_lt(key, keys[at]),
    ensures
        strictly_sorted(keys.insert(at, key)),
{
    let after = keys.insert(at, key);
    assert forall|i: int, j: int| 0 <= i < j < after.len() implies lex_lt(#[trigger] after[i], #[trigger] after[j]) by {
        let a = if i < at { i } else { i - 1 };
        let b = if j < at { j } else { j - 1 };
        if i == at {
            assert(after[j] == keys[j - 1]);
            if j - 1 > at {
                assert(lex_lt(keys[at], keys[j - 1]));
                lemma_lex_transitive(key, keys[at], keys[j - 1]);
            }
        } else if j == at {
            assert(after[i] == keys[i]);
        } else {
            assert(after[i] == keys[a] && after[j] == keys[b]);
        }
    }
}

/// A new key at its place adds one pair to the map.
proof fn lemma_insert_paired<T>(keys: Seq<Seq<u8>>, values: Seq<T>, at: int, key: Seq<u8>, value: T)
    requires
        strictly_sorted(keys),
        strictly_sorted(keys.insert(at, key)),
        keys.len() == values.len(),
        0 <= at <= keys.len(),
    ensures
        paired(keys.insert(at, key), values.insert(at, value)) == paired(keys, values).insert(key, value),
{
    let after = keys.insert(at, key);
    let after_values = values.insert(at, value);
    lemma_sorted_distinct(keys);
    lemma_sorted_distinct(after);
    let left = paired(after, after_values);
    let right = paired(keys, values).insert(key, value);
    assert(after[at] == key);
    assert forall|k: Seq<u8>| left.contains_key(k) == right.contains_key(k) by {
        if after.contains(k) {
            let i = after.index_of(k);
            assert(0 <= i < after.len() && after[i] == k);
            if i < at {
                assert(keys[i] == k);
            } else if i > at {
                assert(keys[i - 1] == k);
            }
        }
        if keys.contains(k) {
            let i = keys.index_of(k);
            assert(0 <= i < keys.len() && keys[i] == k);
            if i < at {
                assert(after[i] == k);
            } else {
                assert(after[i + 1] == k);
            }
        }
    }
    assert forall|k: Seq<u8>| left.contains_key(k) implies left[k] == right[k] by {
        let i = after.index_of(k);
        assert(0 <= i < after.len() && after[i] == k);
        if i < at {
            assert(keys[i] == k);
            assert(keys.index_of(keys[i]) == i);
        } else if i > at {
            assert(keys[i - 1] == k);
            assert(keys.index_of(keys[i - 1]) == i - 1);
        }
    }
    assert(left =~= right);
}

/// Taking one position out keeps the order and removes one pair from the map.
proof fn lemma_remove_paired<T>(keys: Seq<Seq<u8>>, values: Seq<T>, at: int)
    requires
        strictly_sorted(keys),
        keys.len() == values.len(),
        0 <= at < keys.len(),
    ensures
        strictly_sorted(keys.remove(at)),
        paired(keys.remove(at), values.remove(at)) == paired(keys, values).remove(keys[at]),
{
    let after = keys.remove(at);
    let after_values = values.remove(at);
    lemma_sorted_distinct(keys);
    assert forall|i: int, j: int| 0 <= i < j < after.len() implies lex_lt(#[trigger] after[i], #[trigger] after[j]) by {
        let a = if i < at { i } else { i + 1 };
        let b = if j < at { j } else { j + 1 };
        assert(after[i] == keys[a] && after[j] == keys[b]);
    }
    lemma_sorted_distinct(after);
    let left = paired(after, after_values);
    let right = paired(keys, values).remove(keys[at]);
    assert forall|k: Seq<u8>| left.contains_key(k) == right.contains_key(k) by {
        if after.contains(k) {
            let i = after.index_of(k);
            assert(0 <= i < after.len() && after[i] == k);
            let a = if i < at { i } else { i + 1 };
            assert(keys[a] == k);
            assert(keys.index_of(keys[a]) == a);
        }
        if keys.contains(k) && k != keys[at] {
            let i = keys.index_of(k);
            assert(0 <= i < keys.len() && keys[i] == k);
            let b = if i < at { i } else { i - 1 };
            assert(after[b] == k);
        }
    }
    assert forall|k: Seq<u8>| left.contains_key(k) implies left[k] == right[k] by {
        let i = after.index_of(k);
        assert(0 <= i < after.len() && after[i] == k);
        let a = if i < at { i } else { i + 1 };
        assert(keys[a] == k);
        assert(keys.index_of(keys[a]) == a);
    }
    assert(left =~= right);
}

} // verus!
