//! A set of journal keys.

use vstd::prelude::*;

use crate::bytemap::ByteMap;
use crate::codec::{be32, be64};
use crate::protocol::{append, append_number};
use crate::record::{key_tag, JournalKey, KeyView};
use crate::snapshot::{lemma_owner_key, owner_key, owner_map_key};
use crate::transfer::number_key;

verus! {

/// The bytes under which a key is filed.
pub open spec fn key_place(key: KeyView) -> Seq<u8> {
    seq![key_tag(key)] + match key {
        KeyView::Client { client_id } => be64(client_id),
        KeyView::Open { state_token } => state_token,
        KeyView::Lock { state_token } => state_token,
        KeyView::Delegation { state_token } => state_token,
        KeyView::Revocation { state_token } => state_token,
        KeyView::Replay { client_id, owner_kind, owner } => owner_key(client_id, owner_kind, owner),
        KeyView::Migration { export_id, transfer_id } => be32(export_id.0) + transfer_id,
        _ => seq![],
    }
}

/// Keys are filed apart.
pub proof fn lemma_key_place(a: KeyView, b: KeyView)
    ensures
        (key_place(a) == key_place(b)) == (a == b),
{
    if key_place(a) == key_place(b) {
        assert(key_place(a)[0] == key_tag(a));
        assert(key_place(b)[0] == key_tag(b));
        let x = key_place(a).skip(1);
        let y = key_place(b).skip(1);
        match (a, b) {
            (KeyView::Client { client_id: c }, KeyView::Client { client_id: d }) => {
                assert(x =~= be64(c));
                assert(y =~= be64(d));
                crate::codec::lemma_be64(c, seq![]);
                crate::codec::lemma_be64(d, seq![]);
            },
            (KeyView::Open { state_token: s }, KeyView::Open { state_token: t }) => {
                assert(x =~= s);
                assert(y =~= t);
            },
            (KeyView::Lock { state_token: s }, KeyView::Lock { state_token: t }) => {
                assert(x =~= s);
                assert(y =~= t);
            },
            (KeyView::Delegation { state_token: s }, KeyView::Delegation { state_token: t }) => {
                assert(x =~= s);
                assert(y =~= t);
            },
            (KeyView::Revocation { state_token: s }, KeyView::Revocation { state_token: t }) => {
                assert(x =~= s);
                assert(y =~= t);
            },
            (
                KeyView::Replay { client_id: c, owner_kind: k, owner: o },
                KeyView::Replay { client_id: d, owner_kind: l, owner: p },
            ) => {
                assert(x =~= owner_key(c, k, o));
                assert(y =~= owner_key(d, l, p));
                lemma_owner_key(c, k, o, d, l, p);
            },
            (
                KeyView::Migration { export_id: e, transfer_id: s },
                KeyView::Migration { export_id: f, transfer_id: t },
            ) => {
                assert(x =~= be32(e.0) + s);
                assert(y =~= be32(f.0) + t);
                crate::codec::lemma_be32(e.0, seq![]);
                crate::codec::lemma_be32(f.0, seq![]);
                assert(x.take(4) =~= be32(e.0));
                assert(y.take(4) =~= be32(f.0));
                assert(x.skip(4) =~= s);
                assert(y.skip(4) =~= t);
            },
            _ => {},
        }
    }
}

/// The bytes under which a key is filed.
fn place_of(key: &JournalKey) -> (place: Vec<u8>)
    ensures
        place@ == key_place(key@),
{
    let mut place: Vec<u8> = Vec::new();
    place.push(key.tag());
    assert(place@ =~= seq![key_tag(key@)]);
    match key {
        JournalKey::Client { client_id } => {
            let body = number_key(*client_id);
            append(&mut place, body.as_slice());
        },
        JournalKey::Open { state_token } => {
            append(&mut place, state_token.as_slice());
        },
        JournalKey::Lock { state_token } => {
            append(&mut place, state_token.as_slice());
        },
        JournalKey::Delegation { state_token } => {
            append(&mut place, state_token.as_slice());
        },
        JournalKey::Revocation { state_token } => {
            append(&mut place, state_token.as_slice());
        },
        JournalKey::Replay { client_id, owner_kind, owner } => {
            let body = owner_map_key(*client_id, *owner_kind, owner.as_slice());
            append(&mut place, body.as_slice());
        },
        JournalKey::Migration { export_id, transfer_id } => {
            append_number(&mut place, export_id.0);
            append(&mut place, transfer_id.as_slice());
        },
        _ => {},
    }
    assert(place@ =~= key_place(key@));
    place
}

/// A set of journal keys.
pub struct KeySet {
    entries: ByteMap<JournalKey>,
}

impl View for KeySet {
    type V = Set<KeyView>;

    closed spec fn view(&self) -> Set<KeyView> {
        Set::new(|key: KeyView| self.entries@.contains_key(key_place(key)))
    }
}

impl KeySet {
    #[verifier::type_invariant]
    spec fn placed(&self) -> bool {
        forall|place: Seq<u8>| #[trigger]
            self.entries@.contains_key(place) ==> place == key_place(self.entries@[place]@)
    }

    /// The keys in the order of their places.
    pub closed spec fn listed(&self) -> Seq<KeyView> {
        Seq::new(self.entries.values().len(), |i: int| self.entries.values()[i]@)
    }

    /// The empty set.
    pub fn new() -> (set: KeySet)
        ensures
            set@ == Set::<KeyView>::empty(),
    {
        let set = KeySet { entries: ByteMap::new() };
        assert(set@ =~= Set::<KeyView>::empty());
        set
    }

    /// Puts a key in.
    pub fn insert(&mut self, key: &JournalKey)
        ensures
            final(self)@ == old(self)@.insert(key@),
    {
        proof {
            use_type_invariant(&*self);
        }
        let ghost before = self.entries@;
        let place = place_of(key);
        let copy = key.copy();
        let mut entries: ByteMap<JournalKey> = ByteMap::new();
        std::mem::swap(&mut entries, &mut self.entries);
        let _ = entries.insert(place, copy);
        proof {
            assert forall|p: Seq<u8>| #[trigger] entries@.contains_key(p) implies p == key_place(entries@[p]@) by {
                if p != key_place(key@) {
                    assert(before.contains_key(p));
                }
            }
        }
        self.entries = entries;
        proof {
            assert forall|k: KeyView| #[trigger] key_place(k) == key_place(key@) implies k == key@ by {
                lemma_key_place(k, key@);
            }
            assert(self@ =~= old(self)@.insert(key@));
        }
    }

    /// Takes a key out.
    pub fn remove(&mut self, key: &JournalKey)
        ensures
            final(self)@ == old(self)@.remove(key@),
    {
        proof {
            use_type_invariant(&*self);
        }
        let ghost before = self.entries@;
        let place = place_of(key);
        let mut entries: ByteMap<JournalKey> = ByteMap::new();
        std::mem::swap(&mut entries, &mut self.entries);
        let _ = entries.remove(place.as_slice());
        proof {
            assert forall|p: Seq<u8>| #[trigger] entries@.contains_key(p) implies p == key_place(entries@[p]@) by {
                assert(before.contains_key(p));
            }
        }
        self.entries = entries;
        proof {
            assert forall|k: KeyView| #[trigger] key_place(k) == key_place(key@) implies k == key@ by {
                lemma_key_place(k, key@);
            }
            assert(self@ =~= old(self)@.remove(key@));
        }
    }

    /// Whether a key is in the set.
    pub fn contains(&self, key: &JournalKey) -> (present: bool)
        ensures
            present == self@.contains(key@),
    {
        let place = place_of(key);
        self.entries.contains(place.as_slice())
    }

    /// The keys are listed each once, and they are the keys of the set.
    pub fn order_known(&self)
        ensures
            self.listed().no_duplicates(),
            self.listed().to_set() == self@,
            self@.finite(),
            self@.len() == self.listed().len(),
    {
        self.entries.order_known();
        proof {
            use_type_invariant(self);
            let places = self.entries.keys();
            let listed = self.listed();
            assert forall|i: int| 0 <= i < listed.len() implies places[i] == key_place(#[trigger] listed[i]) by {
                assert(self.entries@.contains_key(places[i]));
                assert(self.entries@[places[i]] == self.entries.values()[i]);
            }
            assert forall|i: int, j: int| 0 <= i < listed.len() && 0 <= j < listed.len() && i != j implies listed[i]
                != listed[j] by {
                assert(places[i] != places[j]);
                assert(places[i] == key_place(listed[i]));
                assert(places[j] == key_place(listed[j]));
            }
            assert forall|key: KeyView| self@.contains(key) == listed.to_set().contains(key) by {
                if self@.contains(key) {
                    assert(self.entries@.contains_key(key_place(key)));
                    let i = places.index_of(key_place(key));
                    assert(places[i] == key_place(key));
                    assert(places[i] == key_place(listed[i]));
                    lemma_key_place(listed[i], key);
                    assert(listed[i] == key);
                }
                if listed.to_set().contains(key) {
                    let i = listed.index_of(key);
                    assert(listed[i] == key);
                    assert(self.entries@.contains_key(places[i]));
                }
            }
            assert(self@ =~= listed.to_set());
            listed.unique_seq_to_set();
        }
    }

    /// The number of keys.
    pub fn len(&self) -> (count: usize)
        ensures
            count == self.listed().len(),
            self@.finite(),
            count == self@.len(),
    {
        self.order_known();
        self.entries.order_known();
        self.entries.len()
    }

    /// The key at a position of the order.
    pub fn key_at(&self, at: usize) -> (key: &JournalKey)
        requires
            at < self.listed().len(),
        ensures
            key@ == self.listed()[at as int],
    {
        self.entries.order_known();
        self.entries.value_at(at)
    }
}

} // verus!
