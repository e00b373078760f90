//! State that comes from another server becomes visible.

use vstd::prelude::*;

use crate::bytemap::ByteMap;
use crate::bytes::copy_bytes;
use crate::clients::{previous_views, ClientSlot, ClientsView, Registration};
use crate::identity::{canonical_client_identity, canonical_identity};
use crate::idlist::IdList;
use crate::keyset::KeySet;
use crate::lease::{grace_end, GraceView};
use crate::merge::{
    add_missing, all_known, all_numbers, apart, check_all_known, files_either, files_number, fresh, identities, joined,
    known_at, none_differs, numbers_apart, numbers_fit, owner_names, owners_fit, owns_some, Identified, PreviouslyOwned,
    Recovered,
};
use crate::numbermap::NumberMap;
use crate::recovery::{
    id_views, identity_key, identity_place, PreparedRuntimeRecovery, RecoveredLock, RecoveredOpen, RuntimeConfigError,
};
use crate::registry::StateView;
use crate::runtime::import::{identities_apart, importable, projected_states, ranges_fit};
use crate::runtime::{Nfs4Runtime, RuntimeView};

verus! {

/// The place of a registration's identity.
pub open spec fn registration_place(record: Registration) -> Seq<u8> {
    identity_place(record.owner@, record.verifier@, canonical_identity(record.principal@))
}

/// A confirmed registration with that number belongs to a client that was there before.
pub open spec fn links(slot: ClientSlot, recovered: Map<Seq<u8>, Set<u64>>, client_id: u64) -> bool {
    slot.confirmed matches Some(record) && record.client_id == client_id && recovered.contains_key(
        registration_place(record),
    )
}

/// The numbers that the client of a confirmed registration had before.
pub open spec fn linked_ids(slot: ClientSlot, recovered: Map<Seq<u8>, Set<u64>>) -> Set<u64> {
    recovered[registration_place(slot.confirmed->Some_0)]
}

/// Some confirmed registration with that number belongs to a client that was there before.
pub open spec fn is_linked(slots: Map<Seq<u8>, ClientSlot>, recovered: Map<Seq<u8>, Set<u64>>, client_id: u64) -> bool {
    exists|name: Seq<u8>| #[trigger] slots.contains_key(name) && links(slots[name], recovered, client_id)
}

/// The clients that were there before are linked with the numbers that they had; the others stay as they were.
pub open spec fn relinked(
    before: Map<u64, Set<u64>>,
    after: Map<u64, Set<u64>>,
    slots: Map<Seq<u8>, ClientSlot>,
    recovered: Map<Seq<u8>, Set<u64>>,
) -> bool {
    &&& forall|client_id: u64| #[trigger]
        after.contains_key(client_id) <==> before.contains_key(client_id) || is_linked(slots, recovered, client_id)
    &&& forall|client_id: u64| #[trigger]
        after.contains_key(client_id) && is_linked(slots, recovered, client_id) ==> exists|name: Seq<u8>| #[trigger]
            slots.contains_key(name) && links(slots[name], recovered, client_id) && after[client_id] == linked_ids(
                slots[name],
                recovered,
            )
    &&& forall|client_id: u64| #[trigger]
        after.contains_key(client_id) && !is_linked(slots, recovered, client_id) ==> after[client_id]
            == before[client_id]
}

/// One of the first registrations links a client.
spec fn linked_among(
    slots: Seq<ClientSlot>,
    count: int,
    recovered: Map<Seq<u8>, Set<u64>>,
    client_id: u64,
) -> bool {
    exists|j: int| 0 <= j < count && links(#[trigger] slots[j], recovered, client_id)
}

/// One of the first registrations links a client with these numbers.
spec fn linked_with(
    slots: Seq<ClientSlot>,
    count: int,
    recovered: Map<Seq<u8>, Set<u64>>,
    client_id: u64,
    ids: Set<u64>,
) -> bool {
    exists|j: int|
        0 <= j < count && links(#[trigger] slots[j], recovered, client_id) && ids == linked_ids(slots[j], recovered)
}

/// Links the clients that were there before with the numbers that they had.
fn relink(current: &mut NumberMap<IdList>, slots: &ByteMap<ClientSlot>, recovered: &ByteMap<IdList>)
    ensures
        relinked(previous_views(old(current)@), previous_views(final(current)@), slots@, id_views(recovered@)),
{
    let ghost before = previous_views(current@);
    let ghost known = id_views(recovered@);
    slots.order_known();
    let ghost names = slots.keys();
    let ghost list = slots.values();
    let total = slots.len();
    let mut i: usize = 0;
    while i < total
        invariant
            i <= total,
            total == names.len(),
            names == slots.keys(),
            list == slots.values(),
            names.len() == list.len(),
            known == id_views(recovered@),
            forall|n: u64| #[trigger]
                current@.contains_key(n) <==> before.contains_key(n) || linked_among(list, i as int, known, n),
            forall|n: u64| #[trigger]
                current@.contains_key(n) && linked_among(list, i as int, known, n) ==> linked_with(
                    list,
                    i as int,
                    known,
                    n,
                    current@[n]@,
                ),
            forall|n: u64| #[trigger]
                current@.contains_key(n) && !linked_among(list, i as int, known, n) ==> current@[n]@ == before[n],
        decreases total - i,
    {
        let ghost had = current@;
        let slot = slots.value_at(i);
        assert(list[i as int] == *slot);
        let ghost mut done: Option<u64> = None;
        if let Some(record) = &slot.confirmed {
            let canonical = canonical_client_identity(&record.principal);
            let place = identity_key(record.owner.as_slice(), &record.verifier, canonical.as_slice());
            if let Some(ids) = recovered.get(place.as_slice()) {
                let _ = current.insert(record.client_id, ids.copy());
                proof {
                    done = Some(record.client_id);
                    assert(links(list[i as int], known, record.client_id));
                    assert(current@[record.client_id]@ == linked_ids(list[i as int], known));
                }
            }
        }
        proof {
            assert forall|n: u64| linked_among(list, i + 1, known, n) == (linked_among(list, i as int, known, n) || done
                == Some(n)) by {
                if linked_among(list, i + 1, known, n) && !linked_among(list, i as int, known, n) {
                    let j = choose|j: int| 0 <= j < i + 1 && links(#[trigger] list[j], known, n);
                    assert(j == i);
                }
                if linked_among(list, i as int, known, n) {
                    let j = choose|j: int| 0 <= j < i && links(#[trigger] list[j], known, n);
                    assert(links(list[j], known, n));
                }
            }
            assert forall|n: u64| #[trigger] current@.contains_key(n) && linked_among(list, i + 1, known, n) implies linked_with(
                list,
                i + 1,
                known,
                n,
                current@[n]@,
            ) by {
                if done != Some(n) {
                    assert(had.contains_key(n));
                    assert(linked_with(list, i as int, known, n, had[n]@));
                    let j = choose|j: int|
                        0 <= j < i && links(#[trigger] list[j], known, n) && had[n]@ == linked_ids(list[j], known);
                    assert(links(list[j], known, n));
                }
            }
            assert forall|n: u64| #[trigger] current@.contains_key(n) <==> before.contains_key(n) || linked_among(
                list,
                i + 1,
                known,
                n,
            ) by {
                assert(had.contains_key(n) == had.contains_key(n));
            }
            assert forall|n: u64| #[trigger] current@.contains_key(n) && !linked_among(list, i + 1, known, n) implies current@[n]@
                == before[n] by {
                assert(had.contains_key(n));
            }
        }
        i += 1;
    }
    proof {
        let after = previous_views(current@);
        assert forall|n: u64| is_linked(slots@, known, n) == linked_among(list, total as int, known, n) by {
            if is_linked(slots@, known, n) {
                let name = choose|name: Seq<u8>| #[trigger] slots@.contains_key(name) && links(slots@[name], known, n);
                assert(names.contains(name));
                let j = names.index_of(name);
                assert(slots@[names[j]] == list[j]);
                assert(links(list[j], known, n));
            }
            if linked_among(list, total as int, known, n) {
                let j = choose|j: int| 0 <= j < total && links(#[trigger] list[j], known, n);
                assert(slots@.contains_key(names[j]));
                assert(slots@[names[j]] == list[j]);
            }
        }
        assert forall|n: u64| #[trigger] after.contains_key(n) && is_linked(slots@, known, n) implies exists|name: Seq<u8>|
            #[trigger] slots@.contains_key(name) && links(slots@[name], known, n) && after[n] == linked_ids(
                slots@[name],
                known,
            ) by {
            assert(current@.contains_key(n));
            assert(linked_with(list, total as int, known, n, current@[n]@));
            let j = choose|j: int|
                0 <= j < total && links(#[trigger] list[j], known, n) && current@[n]@ == linked_ids(list[j], known);
            assert(slots@.contains_key(names[j]));
            assert(slots@[names[j]] == list[j]);
        }
        assert forall|n: u64| #[trigger] after.contains_key(n) <==> before.contains_key(n) || is_linked(slots@, known, n) by {
            assert(current@.contains_key(n) == after.contains_key(n));
        }
        assert forall|n: u64| #[trigger] after.contains_key(n) && !is_linked(slots@, known, n) implies after[n]
            == before[n] by {
            assert(current@.contains_key(n));
        }
    }
}

/// The numbers of one place.
pub open spec fn ids_at(map: Map<Seq<u8>, Set<u64>>, place: Seq<u8>) -> Set<u64> {
    if map.contains_key(place) {
        map[place]
    } else {
        Set::empty()
    }
}

/// The numbers of both, place by place.
pub open spec fn ids_joined(there: Map<Seq<u8>, Set<u64>>, found: Map<Seq<u8>, Set<u64>>) -> Map<Seq<u8>, Set<u64>> {
    Map::new(
        |place: Seq<u8>| there.contains_key(place) || found.contains_key(place),
        |place: Seq<u8>| ids_at(there, place).union(ids_at(found, place)),
    )
}

/// All numbers that are found are there, at the same place.
pub open spec fn ids_known(there: Map<Seq<u8>, Set<u64>>, found: Map<Seq<u8>, Set<u64>>) -> bool {
    forall|place: Seq<u8>| #[trigger]
        found.contains_key(place) ==> there.contains_key(place) && found[place].subset_of(there[place])
}

/// Whether all numbers that are found are there.
fn check_ids_known(there: &ByteMap<IdList>, found: &ByteMap<IdList>) -> (known: bool)
    ensures
        known == ids_known(id_views(there@), id_views(found@)),
{
    found.order_known();
    let ghost keys = found.keys();
    let ghost old_ids = id_views(there@);
    let ghost new_ids = id_views(found@);
    let total = found.len();
    let mut i: usize = 0;
    while i < total
        invariant
            i <= total,
            total == keys.len(),
            keys == found.keys(),
            keys.len() == found.values().len(),
            old_ids == id_views(there@),
            new_ids == id_views(found@),
            forall|j: int| 0 <= j < keys.len() ==> found@.contains_key(#[trigger] keys[j]),
            forall|j: int| 0 <= j < keys.len() ==> found@[#[trigger] keys[j]] == found.values()[j],
            forall|j: int|
                0 <= j < i ==> old_ids.contains_key(#[trigger] keys[j]) && new_ids[keys[j]].subset_of(
                    old_ids[keys[j]],
                ),
        decreases total - i,
    {
        let ids = found.value_at(i);
        let ghost key = keys[i as int];
        assert(found@[key] == *ids);
        assert(found@.contains_key(key));
        assert(new_ids.contains_key(key) && new_ids[key] == ids@);
        let known = match there.get(found.key_at(i).as_slice()) {
            Some(existing) => existing.covers(ids),
            None => false,
        };
        if !known {
            return false;
        }
        i += 1;
    }
    proof {
        assert forall|place: Seq<u8>| #[trigger] new_ids.contains_key(place) implies old_ids.contains_key(place)
            && new_ids[place].subset_of(old_ids[place]) by {
            assert(found@.contains_key(place));
            assert(keys.contains(place));
        }
    }
    true
}

/// Adds the numbers that are found.
fn join_ids(there: &mut ByteMap<IdList>, found: &ByteMap<IdList>)
    ensures
        id_views(final(there)@) == ids_joined(id_views(old(there)@), id_views(found@)),
{
    let ghost before = id_views(there@);
    let ghost new_ids = id_views(found@);
    found.order_known();
    let ghost keys = found.keys();
    let total = found.len();
    let mut i: usize = 0;
    while i < total
        invariant
            i <= total,
            total == keys.len(),
            keys == found.keys(),
            keys.len() == found.values().len(),
            keys.no_duplicates(),
            new_ids == id_views(found@),
            forall|j: int| 0 <= j < keys.len() ==> found@.contains_key(#[trigger] keys[j]),
            forall|j: int| 0 <= j < keys.len() ==> found@[#[trigger] keys[j]] == found.values()[j],
            forall|k: Seq<u8>| #[trigger] found@.contains_key(k) ==> keys.contains(k),
            forall|k: Seq<u8>| #[trigger]
                there@.contains_key(k) <==> before.contains_key(k) || (found@.contains_key(k) && keys.index_of(k) < i),
            forall|k: Seq<u8>| #[trigger]
                there@.contains_key(k) ==> there@[k]@ == if found@.contains_key(k) && keys.index_of(k) < i {
                    ids_at(before, k).union(new_ids[k])
                } else {
                    before[k]
                },
        decreases total - i,
    {
        let ghost key = keys[i as int];
        let ghost had = there@;
        assert(keys.contains(key) && keys.index_of(key) == i);
        let ids = found.value_at(i);
        assert(found@[key] == *ids);
        assert(new_ids[key] == ids@);
        let place = found.key_at(i);
        assert(had.contains_key(key) == before.contains_key(key));
        let list = match there.get(place.as_slice()) {
            Some(existing) => existing.union(ids),
            None => ids.copy(),
        };
        assert(list@ =~= ids_at(before, key).union(new_ids[key]));
        let _ = there.insert(copy_bytes(place.as_slice()), list);
        assert forall|k: Seq<u8>| #[trigger] there@.contains_key(k) <==> before.contains_key(k) || (found@.contains_key(
            k,
        ) && keys.index_of(k) < i + 1) by {
            if k != key && found@.contains_key(k) {
                assert(keys.contains(k));
                assert(keys.index_of(k) != i);
            }
            assert(had.contains_key(k) == had.contains_key(k));
        }
        assert forall|k: Seq<u8>| #[trigger] there@.contains_key(k) implies there@[k]@ == if found@.contains_key(k)
            && keys.index_of(k) < i + 1 {
            ids_at(before, k).union(new_ids[k])
        } else {
            before[k]
        } by {
            if k != key {
                if found@.contains_key(k) {
                    assert(keys.contains(k));
                    assert(keys.index_of(k) != i);
                }
                assert(had.contains_key(k));
            }
        }
        i += 1;
    }
    proof {
        let after = id_views(there@);
        let goal = ids_joined(before, new_ids);
        assert forall|k: Seq<u8>| after.contains_key(k) == goal.contains_key(k) by {
            if found@.contains_key(k) {
                assert(keys.contains(k));
            }
            assert(there@.contains_key(k) == after.contains_key(k));
            assert(found@.contains_key(k) == new_ids.contains_key(k));
        }
        assert forall|k: Seq<u8>| #[trigger] after.contains_key(k) implies after[k] =~= goal[k] by {
            assert(there@.contains_key(k));
            if found@.contains_key(k) {
                assert(keys.contains(k));
            }
        }
        assert(after =~= goal);
    }
}

/// Whether all keys of a set are in another one.
fn check_keys_known(there: &KeySet, found: &KeySet) -> (known: bool)
    ensures
        known == found@.subset_of(there@),
{
    found.order_known();
    let ghost listed = found.listed();
    let total = found.len();
    let mut i: usize = 0;
    while i < total
        invariant
            i <= total,
            total == listed.len(),
            listed == found.listed(),
            listed.to_set() == found@,
            forall|j: int| 0 <= j < i ==> there@.contains(#[trigger] listed[j]),
        decreases total - i,
    {
        if !there.contains(found.key_at(i)) {
            assert(listed.contains(listed[i as int]));
            assert(found@.contains(listed[i as int]));
            return false;
        }
        i += 1;
    }
    proof {
        assert forall|key: crate::record::KeyView| found@.contains(key) implies there@.contains(key) by {
            assert(listed.contains(key));
            assert(listed[listed.index_of(key)] == key);
        }
    }
    true
}

/// Adds the keys of another set.
fn join_keys(there: &mut KeySet, found: &KeySet)
    ensures
        final(there)@ == old(there)@.union(found@),
{
    let ghost before = there@;
    found.order_known();
    let ghost listed = found.listed();
    let total = found.len();
    let mut i: usize = 0;
    while i < total
        invariant
            i <= total,
            total == listed.len(),
            listed == found.listed(),
            there@ == before.union(listed.take(i as int).to_set()),
        decreases total - i,
    {
        there.insert(found.key_at(i));
        proof {
            let a = listed.take(i as int);
            let b = listed.take(i + 1);
            assert(b =~= a.push(listed[i as int]));
            assert forall|key: crate::record::KeyView| b.to_set().contains(key) == a.to_set().insert(
                listed[i as int],
            ).contains(key) by {
                if b.contains(key) && key != listed[i as int] {
                    assert(a[b.index_of(key)] == key);
                    assert(a.contains(key));
                }
                if a.contains(key) {
                    assert(b[a.index_of(key)] == key);
                    assert(b.contains(key));
                }
                assert(b[i as int] == listed[i as int]);
            }
            assert(b.to_set() =~= a.to_set().insert(listed[i as int]));
            assert(there@ =~= before.union(b.to_set()));
        }
        i += 1;
    }
    assert(listed.take(total as int) =~= listed);
    assert(there@ =~= before.union(found@));
}

/// All state that is prepared is there already.
pub open spec fn already_active(view: RuntimeView, prepared: PreparedRuntimeRecovery) -> bool {
    &&& ids_known(view.clients.recovered_clients, prepared.state@.clients)
    &&& all_known(view.state.recovered_opens, prepared.state.opens@)
    &&& all_known(view.state.recovered_locks, prepared.state.locks@)
    &&& all_known(view.state.recovered_replays, prepared.state.replays@)
    &&& prepared.state.cleanup_keys@.subset_of(view.state.recovered_cleanup_keys)
}

/// The longer of two times.
pub open spec fn longer(a: u64, b: u64) -> u64 {
    if a > b {
        a
    } else {
        b
    }
}

/// The clients once prepared state has become visible.
pub open spec fn activated_clients(
    before: ClientsView,
    after: ClientsView,
    prepared: PreparedRuntimeRecovery,
    now: u64,
) -> bool {
    let recovered = ids_joined(before.recovered_clients, prepared.state@.clients);
    &&& relinked(before.current_to_previous, after.current_to_previous, before.slots, recovered)
    &&& after == (ClientsView {
        recovered_clients: recovered,
        current_to_previous: after.current_to_previous,
        recovery_had_grace: true,
        grace_cleanup_complete: false,
        recovery: GraceView {
            grace_until: Some(
                grace_end(
                    before.recovery.grace_until,
                    now,
                    longer(before.grace_duration, prepared.minimum_grace_duration),
                ),
            ),
            reclaimable: before.recovery.reclaimable.union(after.current_to_previous.dom()),
        },
        ..before
    })
}

/// The states once prepared state has become visible.
pub open spec fn activated_state(before: StateView, prepared: PreparedRuntimeRecovery) -> StateView {
    StateView {
        recovered_opens: joined(before.recovered_opens, prepared.state.opens@),
        recovered_locks: joined(before.recovered_locks, prepared.state.locks@),
        recovered_replays: joined(before.recovered_replays, prepared.state.replays@),
        recovered_cleanup_keys: before.recovered_cleanup_keys.union(prepared.state.cleanup_keys@),
        ..before
    }
}

/// The server once prepared state has become visible.
pub open spec fn activated(
    before: RuntimeView,
    after: RuntimeView,
    prepared: PreparedRuntimeRecovery,
    now: u64,
) -> bool {
    if !importable(before, prepared) || already_active(before, prepared) {
        after == before
    } else {
        &&& activated_clients(before.clients, after.clients, prepared, now)
        &&& after == (RuntimeView {
            clients: after.clients,
            state: activated_state(before.state, prepared),
            ..before
        })
    }
}

impl Nfs4Runtime {
    /// Makes prepared state visible, and begins the time in which clients reclaim it.
    pub fn activate_recovery_import(&mut self, prepared: &PreparedRuntimeRecovery, now: u64) -> (done: Result<
        (),
        RuntimeConfigError,
    >)
        ensures
            done == if importable(old(self)@, *prepared) {
                Ok::<(), RuntimeConfigError>(())
            } else {
                Err::<(), RuntimeConfigError>(RuntimeConfigError::Recovery)
            },
            activated(old(self)@, final(self)@, *prepared, now),
            done is Ok && numbers_apart(prepared.state@.clients) ==> importable(final(self)@, *prepared)
                && already_active(final(self)@, *prepared),
    {
        self.state.recovered_opens.order_known();
        self.state.recovered_locks.order_known();
        prepared.state.opens.order_known();
        prepared.state.locks.order_known();
        match self.validate_recovery_import(prepared) {
            Ok(()) => {},
            Err(error) => {
                return Err(error);
            },
        }
        let imported = &prepared.state;
        if check_ids_known(&self.clients.recovered_clients, &imported.clients) && check_all_known(
            &self.state.recovered_opens,
            &imported.opens,
        ) && check_all_known(&self.state.recovered_locks, &imported.locks) && check_all_known(
            &self.state.recovered_replays,
            &imported.replays,
        ) && check_keys_known(&self.state.recovered_cleanup_keys, &imported.cleanup_keys) {
            proof {
                if numbers_apart(prepared.state@.clients) {
                    lemma_activation_repeats(old(self)@, self@, *prepared, now);
                }
            }
            return Ok(());
        }
        join_ids(&mut self.clients.recovered_clients, &imported.clients);
        relink(&mut self.clients.current_to_previous, &self.clients.slots, &self.clients.recovered_clients);
        self.clients.recovery_had_grace = true;
        self.clients.grace_cleanup_complete = false;
        let duration: u64 = if self.clients.grace_duration > prepared.minimum_grace_duration {
            self.clients.grace_duration
        } else {
            prepared.minimum_grace_duration
        };
        self.clients.recovery.begin_grace(now, duration);
        self.let_reclaim();
        add_missing(&mut self.state.recovered_opens, &imported.opens);
        add_missing(&mut self.state.recovered_locks, &imported.locks);
        add_missing(&mut self.state.recovered_replays, &imported.replays);
        join_keys(&mut self.state.recovered_cleanup_keys, &imported.cleanup_keys);
        proof {
            let before = old(self)@.clients;
            let after = self@.clients;
            assert(after.recovery.reclaimable =~= before.recovery.reclaimable.union(after.current_to_previous.dom()));
            assert(self@.state =~= activated_state(old(self)@.state, *prepared));
            if numbers_apart(prepared.state@.clients) {
                lemma_activation_repeats(old(self)@, self@, *prepared, now);
            }
        }
        Ok(())
    }

    /// Lets all clients reclaim that were there before.
    fn let_reclaim(&mut self)
        ensures
            final(self)@ == (RuntimeView {
                clients: ClientsView {
                    recovery: GraceView {
                        grace_until: old(self)@.clients.recovery.grace_until,
                        reclaimable: old(self)@.clients.recovery.reclaimable.union(
                            old(self)@.clients.current_to_previous.dom(),
                        ),
                    },
                    ..old(self)@.clients
                },
                ..old(self)@
            }),
    {
        let ghost before = self@;
        self.clients.current_to_previous.order_known();
        let ghost keys = self.clients.current_to_previous.keys();
        let total = self.clients.current_to_previous.len();
        let mut i: usize = 0;
        while i < total
            invariant
                i <= total,
                total == keys.len(),
                keys == self.clients.current_to_previous.keys(),
                before == old(self)@,
                self@ == (RuntimeView {
                    clients: ClientsView {
                        recovery: GraceView {
                            grace_until: before.clients.recovery.grace_until,
                            reclaimable: before.clients.recovery.reclaimable.union(keys.take(i as int).to_set()),
                        },
                        ..before.clients
                    },
                    ..before
                }),
            decreases total - i,
        {
            let id = self.clients.current_to_previous.key_at(i);
            self.clients.recovery.add_reclaimable(id);
            proof {
                let a = keys.take(i as int);
                let b = keys.take(i + 1);
                assert(b =~= a.push(id));
                assert forall|key: u64| b.to_set().contains(key) == a.to_set().insert(id).contains(key) by {
                    if b.contains(key) && key != id {
                        assert(a[b.index_of(key)] == key);
                        assert(a.contains(key));
                    }
                    if a.contains(key) {
                        assert(b[a.index_of(key)] == key);
                        assert(b.contains(key));
                    }
                    assert(b[i as int] == id);
                }
                assert(b.to_set() =~= a.to_set().insert(id));
                assert(self@.clients.recovery.reclaimable =~= before.clients.recovery.reclaimable.union(b.to_set()));
            }
            i += 1;
        }
        proof {
            assert(keys.take(total as int) =~= keys);
            assert(keys.to_set() =~= before.clients.current_to_previous.dom());
        }
    }
}

/// What is added to what is there: all of it is known after that, and nothing of it is new.
proof fn lemma_joined<T: Recovered + Identified>(there: Map<Seq<u8>, T>, found: Map<Seq<u8>, T>)
    requires
        there.dom().finite(),
        found.dom().finite(),
        forall|k: Seq<u8>| #[trigger] found.contains_key(k) ==> found[k].alike(&found[k]),
        forall|k: Seq<u8>| #[trigger]
            found.contains_key(k) && there.contains_key(k) ==> there[k].identity(k) == found[k].identity(k),
        apart(there),
        apart(fresh(there, found)),
        identities(there).disjoint(identities(fresh(there, found))),
    ensures
        all_known(joined(there, found), found),
        fresh(joined(there, found), found) == Map::<Seq<u8>, T>::empty(),
        identities(joined(there, found)) == identities(there) + identities(fresh(there, found)),
        apart(joined(there, found)),
        joined(there, found).dom().finite(),
        joined(there, found).dom().len() == there.dom().len() + fresh(there, found).dom().len(),
{
    let all = joined(there, found);
    let new = fresh(there, found);
    assert forall|k: Seq<u8>| #[trigger] new.contains_key(k) implies !there.contains_key(k) by {
        if there.contains_key(k) {
            assert(found.contains_key(k));
            assert(identities(there).contains(there[k].identity(k)));
            assert(identities(new).contains(new[k].identity(k)));
        }
    }
    assert forall|k: Seq<u8>| #[trigger] found.contains_key(k) implies known_at(all, found, k) by {
        if there.contains_key(k) {
            assert(!new.contains_key(k));
        }
    }
    assert(fresh(all, found) =~= Map::<Seq<u8>, T>::empty());
    assert forall|x: Seq<u8>| identities(all).contains(x) == (identities(there) + identities(new)).contains(x) by {
        if identities(all).contains(x) {
            let k = choose|k: Seq<u8>| #[trigger] all.contains_key(k) && all[k].identity(k) == x;
            if there.contains_key(k) {
                assert(identities(there).contains(x));
            } else {
                assert(new.contains_key(k));
                assert(identities(new).contains(x));
            }
        }
        if identities(there).contains(x) {
            let k = choose|k: Seq<u8>| #[trigger] there.contains_key(k) && there[k].identity(k) == x;
            assert(all.contains_key(k));
        }
        if identities(new).contains(x) {
            let k = choose|k: Seq<u8>| #[trigger] new.contains_key(k) && new[k].identity(k) == x;
            assert(all.contains_key(k));
        }
    }
    assert(identities(all) =~= identities(there) + identities(new));
    assert forall|a: Seq<u8>, b: Seq<u8>|
        a != b && #[trigger] all.contains_key(a) && #[trigger] all.contains_key(b) implies all[a].identity(a)
        != all[b].identity(b) by {
        if there.contains_key(a) {
            assert(identities(there).contains(there[a].identity(a)));
        } else {
            assert(new.contains_key(a));
            assert(identities(new).contains(new[a].identity(a)));
        }
        if there.contains_key(b) {
            assert(identities(there).contains(there[b].identity(b)));
        } else {
            assert(new.contains_key(b));
            assert(identities(new).contains(new[b].identity(b)));
        }
    }
    assert(new.dom() =~= found.dom().filter(|k: Seq<u8>| !known_at(there, found, k)));
    found.dom().lemma_len_filter(|k: Seq<u8>| !known_at(there, found, k));
    assert(all.dom() =~= there.dom() + new.dom()) by {
        assert forall|k: Seq<u8>| found.contains_key(k) implies there.contains_key(k) || new.contains_key(k) by {
        }
    }
    assert(there.dom().disjoint(new.dom()));
    vstd::set_lib::lemma_set_disjoint_lens(there.dom(), new.dom());
}

/// The owners are the same whether what is found has been added or not.
proof fn lemma_owners_joined<T: PreviouslyOwned>(there: Map<Seq<u8>, T>, found: Map<Seq<u8>, T>, maximum: usize)
    requires
        owners_fit(there, found, maximum),
    ensures
        owners_fit(joined(there, found), found, maximum),
{
    let all = joined(there, found);
    assert forall|client: u64| (#[trigger] owner_names(all, found, client)).len() <= maximum by {
        assert forall|name: Seq<u8>| owner_names(all, found, client).contains(name) == owner_names(
            there,
            found,
            client,
        ).contains(name) by {
            let owner = (client, name);
            if owns_some(all, owner) {
                let k = choose|k: Seq<u8>| #[trigger] all.contains_key(k) && all[k].previous_owner() == owner;
                if there.contains_key(k) {
                    assert(owns_some(there, owner));
                } else {
                    assert(found.contains_key(k));
                    assert(owns_some(found, owner));
                }
            }
            if owns_some(there, owner) {
                let k = choose|k: Seq<u8>| #[trigger] there.contains_key(k) && there[k].previous_owner() == owner;
                assert(all.contains_key(k));
            }
        }
        assert(owner_names(all, found, client) =~= owner_names(there, found, client));
    }
}

/// The numbers are the same whether what is found has been added or not.
proof fn lemma_numbers_joined(there: Map<Seq<u8>, Set<u64>>, found: Map<Seq<u8>, Set<u64>>, clients: Set<u64>)
    requires
        numbers_apart(there),
        numbers_apart(found),
        numbers_fit(there, found, clients),
    ensures
        numbers_apart(ids_joined(there, found)),
        numbers_fit(ids_joined(there, found), found, clients),
        all_numbers(ids_joined(there, found), found) == all_numbers(there, found),
        ids_known(ids_joined(there, found), found),
{
    let both = ids_joined(there, found);
    assert forall|place: Seq<u8>, id: u64| #[trigger] files_number(both, place, id) == files_either(
        there,
        found,
        place,
        id,
    ) by {
    }
    assert forall|a: Seq<u8>, b: Seq<u8>, id: u64| #[trigger]
        files_number(both, a, id) && #[trigger] files_number(both, b, id) implies a == b by {
        assert(files_either(there, found, a, id));
        assert(files_either(there, found, b, id));
    }
    assert forall|place: Seq<u8>, id: u64| #[trigger] files_number(found, place, id) implies !clients.contains(id)
        && forall|other: Seq<u8>| #[trigger] files_number(both, other, id) ==> other == place by {
        assert forall|other: Seq<u8>| #[trigger] files_number(both, other, id) implies other == place by {
            assert(files_either(there, found, other, id));
        }
    }
    assert forall|id: u64| all_numbers(both, found).contains(id) == all_numbers(there, found).contains(id) by {
        if all_numbers(both, found).contains(id) {
            let place = choose|place: Seq<u8>| #[trigger] files_either(both, found, place, id);
            assert(files_either(there, found, place, id));
        }
        if all_numbers(there, found).contains(id) {
            let place = choose|place: Seq<u8>| #[trigger] files_either(there, found, place, id);
            assert(files_either(both, found, place, id));
        }
    }
    assert(all_numbers(both, found) =~= all_numbers(there, found));
}

/// What has been made visible is all there, and can be made visible again, which succeeds and changes nothing.
pub proof fn lemma_activation_repeats(
    before: RuntimeView,
    after: RuntimeView,
    prepared: PreparedRuntimeRecovery,
    now: u64,
)
    requires
        importable(before, prepared),
        activated(before, after, prepared, now),
        before.state.recovered_opens.dom().finite(),
        before.state.recovered_locks.dom().finite(),
        prepared.state.opens@.dom().finite(),
        prepared.state.locks@.dom().finite(),
        numbers_apart(prepared.state@.clients),
    ensures
        importable(after, prepared),
        already_active(after, prepared),
        forall|again: RuntimeView, later: u64| activated(after, again, prepared, later) ==> again == after,
{
    let imported = prepared.state;
    if !already_active(before, prepared) {
        let opens = before.state.recovered_opens;
        let locks = before.state.recovered_locks;
        let new_opens = fresh(opens, imported.opens@);
        let new_locks = fresh(locks, imported.locks@);
        let one = identities(before.state.open_by_owner_file);
        let two = one + identities(before.state.lock_by_state);
        let three = two + identities(opens);
        let four = three + identities(locks);
        let five = four + identities(new_opens);
        assert(identities(opens).disjoint(identities(new_opens))) by {
            assert(identities(opens).subset_of(four));
        }
        assert(identities(locks).disjoint(identities(new_locks))) by {
            assert(identities(locks).subset_of(five));
        }
        lemma_joined(opens, imported.opens@);
        lemma_joined(locks, imported.locks@);
        lemma_owners_joined(opens, imported.opens@, before.limits.max_open_owners_per_client);
        lemma_owners_joined(locks, imported.locks@, before.limits.max_lock_owners_per_client);
        lemma_numbers_joined(
            before.clients.recovered_clients,
            imported@.clients,
            before.clients.client_owners.dom(),
        );
        let state = after.state;
        assert(state == activated_state(before.state, prepared));
        assert(identities(Map::<Seq<u8>, RecoveredOpen>::empty()) =~= Set::empty());
        assert(identities(Map::<Seq<u8>, RecoveredLock>::empty()) =~= Set::empty());
        assert(two.disjoint(identities(state.recovered_opens))) by {
            assert(two.subset_of(four));
        }
        assert((two + identities(state.recovered_opens)).disjoint(identities(state.recovered_locks))) by {
            assert(three.subset_of(five));
            assert(identities(locks).subset_of(four));
        }
        assert(identities_apart(state, imported));
        assert(projected_states(state, imported) == projected_states(before.state, imported));
        assert forall|key: Seq<u8>| #[trigger] imported.replays@.contains_key(key) implies known_at(
            state.recovered_replays,
            imported.replays@,
            key,
        ) by {
        }
        assert(none_differs(state.recovered_replays, imported.replays@));
        assert(ranges_fit(state.recovered_locks, before.limits.max_lock_ranges_per_state));
    }
}

} // verus!
