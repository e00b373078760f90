//! The clients of the server: their registrations, their leases, and what they may reclaim.

use std::sync::Arc;

use vstd::prelude::*;

use crate::bytemap::ByteMap;
use crate::bytes::copy_bytes;
use crate::identity::{canonical_client_identity, canonical_identity, same_client_identity, same_identity, Principal, PrincipalView};
use crate::idlist::IdList;
use crate::lease::{elapsed, time_since, GraceView, LeaseTable, LeaseView, MovedLeaseTracker, MovedView, RecoveryState};
use crate::numbermap::NumberMap;
use crate::protocol::{share, Name, NfsStatus};
use crate::record::{ClientView, JournalRecord, RecordView};
use crate::recovery::id_views;

verus! {

/// Where a client can be called.
#[derive(Clone, Debug, PartialEq, Eq)]
pub struct ClientAddress {
    pub netid: Vec<u8>,
    pub address: Vec<u8>,
}

/// How a client is called back.
#[derive(Clone, Debug, PartialEq, Eq)]
pub struct CallbackClient {
    pub program: u32,
    pub location: ClientAddress,
}

/// A registration of a client.
pub struct Registration {
    pub client_id: u64,
    pub owner: Name,
    pub verifier: [u8; 8],
    pub confirmation: [u8; 8],
    /// The sender of the registration.
    pub principal: Arc<Principal>,
    pub callback: Arc<CallbackClient>,
    pub callback_identifier: u32,
    pub created_at: u64,
    pub reclaimable: bool,
}

impl Registration {
    /// The same registration again.
    pub fn copy(&self) -> (copy: Self)
        ensures
            copy == *self,
    {
        Registration {
            client_id: self.client_id,
            owner: share(&self.owner),
            verifier: self.verifier,
            confirmation: self.confirmation,
            principal: share(&self.principal),
            callback: share(&self.callback),
            callback_identifier: self.callback_identifier,
            created_at: self.created_at,
            reclaimable: self.reclaimable,
        }
    }

    /// The record of the registration.
    pub fn stable(&self, confirmed: bool) -> (record: JournalRecord)
        ensures
            record@ == stable_client(*self, confirmed),
    {
        let record = JournalRecord::Client(
            crate::record::ClientRecord {
                client_id: self.client_id,
                owner: copy_bytes(self.owner.as_slice()),
                verifier: self.verifier,
                canonical_principal: canonical_client_identity(&self.principal),
                confirmed,
            },
        );
        assert(record@ =~= stable_client(*self, confirmed));
        record
    }
}

/// The record of a registration.
pub open spec fn stable_client(record: Registration, confirmed: bool) -> RecordView {
    RecordView::Client(
        ClientView {
            client_id: record.client_id,
            owner: record.owner@,
            verifier: record.verifier@,
            canonical_principal: canonical_identity(record.principal@),
            confirmed,
        },
    )
}

/// The registrations under one name.
pub struct ClientSlot {
    pub confirmed: Option<Registration>,
    pub unconfirmed: Option<Registration>,
}

/// The clients of the server.
pub struct ClientRegistry {
    pub slots: ByteMap<ClientSlot>,
    pub client_owners: NumberMap<Name>,
    pub expired: NumberMap<()>,
    pub pending_expiry: NumberMap<()>,
    pub moved_leases: MovedLeaseTracker,
    pub leases: LeaseTable,
    pub recovery: RecoveryState,
    pub recovered_clients: ByteMap<IdList>,
    pub current_to_previous: NumberMap<IdList>,
    pub recovery_had_grace: bool,
    pub grace_cleanup_complete: bool,
    pub lease_duration: u64,
    pub grace_duration: u64,
    pub boot_tag: u32,
    pub next_client: u32,
    pub next_confirmation: u64,
}

/// What the clients of the server stand for.
#[verifier::ext_equal]
pub struct ClientsView {
    pub slots: Map<Seq<u8>, ClientSlot>,
    pub client_owners: Map<u64, Name>,
    pub expired: Set<u64>,
    pub pending_expiry: Set<u64>,
    pub moved_leases: MovedView,
    pub leases: LeaseView,
    pub recovery: GraceView,
    pub recovered_clients: Map<Seq<u8>, Set<u64>>,
    pub current_to_previous: Map<u64, Set<u64>>,
    pub recovery_had_grace: bool,
    pub grace_cleanup_complete: bool,
    pub lease_duration: u64,
    pub grace_duration: u64,
    pub boot_tag: u32,
    pub next_client: u32,
    pub next_confirmation: u64,
}

/// The numbers that stand behind others.
pub open spec fn previous_views(map: Map<u64, IdList>) -> Map<u64, Set<u64>> {
    map.map_values(|list: IdList| list@)
}

impl View for ClientRegistry {
    type V = ClientsView;

    open spec fn view(&self) -> ClientsView {
        ClientsView {
            slots: self.slots@,
            client_owners: self.client_owners@,
            expired: self.expired@.dom(),
            pending_expiry: self.pending_expiry@.dom(),
            moved_leases: self.moved_leases@,
            leases: self.leases@,
            recovery: self.recovery@,
            recovered_clients: id_views(self.recovered_clients@),
            current_to_previous: previous_views(self.current_to_previous@),
            recovery_had_grace: self.recovery_had_grace,
            grace_cleanup_complete: self.grace_cleanup_complete,
            lease_duration: self.lease_duration,
            grace_duration: self.grace_duration,
            boot_tag: self.boot_tag,
            next_client: self.next_client,
            next_confirmation: self.next_confirmation,
        }
    }
}

/// Why a client is refused, with the client where it is known who asks.
#[derive(Clone, Copy, Debug, PartialEq, Eq, Structural)]
pub struct ClientAuthenticationError {
    pub status: NfsStatus,
    pub client_id: Option<u64>,
}

/// A refusal of one that is not known.
pub open spec fn unauthenticated(status: NfsStatus) -> ClientAuthenticationError {
    ClientAuthenticationError { status, client_id: None }
}

/// A refusal of one that is known.
pub open spec fn authenticated(status: NfsStatus, client_id: u64) -> ClientAuthenticationError {
    ClientAuthenticationError { status, client_id: Some(client_id) }
}

impl ClientsView {
    /// The confirmed registration of a client, for a sender.
    pub open spec fn confirmed(self, client_id: u64, principal: PrincipalView, identity_error: NfsStatus) -> Result<
        Registration,
        NfsStatus,
    > {
        if !self.client_owners.contains_key(client_id) {
            Err(NfsStatus::StaleClientId)
        } else {
            let name = self.client_owners[client_id]@;
            if !self.slots.contains_key(name) {
                Err(NfsStatus::StaleClientId)
            } else {
                match self.slots[name].confirmed {
                    None => Err(NfsStatus::StaleClientId),
                    Some(record) => if record.client_id != client_id {
                        Err(NfsStatus::StaleClientId)
                    } else if !same_identity(record.principal@, principal) {
                        Err(identity_error)
                    } else {
                        Ok(record)
                    },
                }
            }
        }
    }

    /// Why a client that asks is refused, if it is: its lease is over, it is not registered, the sender is another,
    /// or it has to look for a file system that has moved.
    pub open spec fn touch_refused(
        self,
        client_id: u64,
        principal: PrincipalView,
        identity_error: NfsStatus,
        now: u64,
    ) -> Option<ClientAuthenticationError> {
        if self.expired.contains(client_id) {
            Some(unauthenticated(NfsStatus::Expired))
        } else {
            match self.confirmed(client_id, principal, identity_error) {
                Err(status) => Some(unauthenticated(status)),
                Ok(_) => if self.leases.lapsed(client_id, now) {
                    Some(unauthenticated(NfsStatus::Expired))
                } else if self.moved_leases.live(client_id, now) {
                    Some(authenticated(NfsStatus::LeaseMoved, client_id))
                } else {
                    None
                },
            }
        }
    }

    /// The registry once a client has asked: its lease is renewed where it is known.
    pub open spec fn touched(
        self,
        client_id: u64,
        principal: PrincipalView,
        identity_error: NfsStatus,
        now: u64,
    ) -> ClientsView {
        if self.expired.contains(client_id) || self.confirmed(client_id, principal, identity_error) is Err
            || self.leases.lapsed(client_id, now) {
            self
        } else {
            ClientsView {
                leases: self.leases.touched(client_id, now),
                moved_leases: self.moved_leases.at(Some(client_id), now),
                ..self
            }
        }
    }

    /// The numbers that a client had before.
    pub open spec fn previous(self, client_id: u64) -> Set<u64> {
        if self.current_to_previous.contains_key(client_id) {
            self.current_to_previous[client_id]
        } else {
            Set::empty()
        }
    }

    /// Whether a client may have new state, or reclaim the state it had; the numbers under which it had it.
    pub open spec fn gated(self, client_id: u64, principal: PrincipalView, reclaim: bool, now: u64) -> Result<
        Set<u64>,
        ClientAuthenticationError,
    > {
        match self.touch_refused(client_id, principal, NfsStatus::StaleClientId, now) {
            Some(error) => Err(error),
            None => match self.recovery.allowed(client_id, reclaim, now) {
                Err(status) => Err(authenticated(status, client_id)),
                Ok(()) => if !reclaim {
                    Ok(Set::empty())
                } else if self.previous(client_id) == Set::<u64>::empty() {
                    Err(authenticated(NfsStatus::ReclaimBad, client_id))
                } else {
                    Ok(self.previous(client_id))
                },
            },
        }
    }
}

impl ClientRegistry {
    /// The confirmed registration of a client, for a sender.
    pub fn confirmed_client_record(&self, client_id: u64, principal: &Principal, identity_error: NfsStatus) -> (record:
        Result<Registration, NfsStatus>)
        ensures
            record == self@.confirmed(client_id, principal@, identity_error),
    {
        let name = match self.client_owners.get(client_id) {
            Some(name) => name,
            None => {
                return Err(NfsStatus::StaleClientId);
            },
        };
        let slot = match self.slots.get(name.as_slice()) {
            Some(slot) => slot,
            None => {
                return Err(NfsStatus::StaleClientId);
            },
        };
        match &slot.confirmed {
            None => Err(NfsStatus::StaleClientId),
            Some(record) => {
                if record.client_id != client_id {
                    Err(NfsStatus::StaleClientId)
                } else if !same_client_identity(&record.principal, principal) {
                    Err(identity_error)
                } else {
                    Ok(record.copy())
                }
            },
        }
    }

    /// Renews the lease of a client that asks.
    pub fn touch(&mut self, client_id: u64, principal: &Principal, identity_error: NfsStatus, now: u64) -> (renewed:
        Result<(), ClientAuthenticationError>)
        ensures
            match old(self)@.touch_refused(client_id, principal@, identity_error, now) {
                Some(error) => renewed == Err::<(), ClientAuthenticationError>(error),
                None => renewed is Ok,
            },
            final(self)@ == old(self)@.touched(client_id, principal@, identity_error, now),
    {
        if self.expired.contains(client_id) {
            return Err(ClientAuthenticationError { status: NfsStatus::Expired, client_id: None });
        }
        match self.confirmed_client_record(client_id, principal, identity_error) {
            Ok(_) => {},
            Err(status) => {
                return Err(ClientAuthenticationError { status, client_id: None });
            },
        }
        if !self.leases.touch(client_id, now) {
            return Err(ClientAuthenticationError { status: NfsStatus::Expired, client_id: None });
        }
        if self.moved_leases.has_live(client_id, now) {
            return Err(ClientAuthenticationError { status: NfsStatus::LeaseMoved, client_id: Some(client_id) });
        }
        Ok(())
    }

    /// The numbers that a client had before.
    pub fn previous_ids(&self, client_id: u64) -> (ids: IdList)
        ensures
            ids@ == self@.previous(client_id),
    {
        match self.current_to_previous.get(client_id) {
            Some(ids) => ids.copy(),
            None => IdList::new(),
        }
    }

    /// Renews the lease of a client that asks for state, and says whether it may have it.
    pub fn gate(&mut self, client_id: u64, principal: &Principal, reclaim: bool, now: u64) -> (gated: Result<
        IdList,
        ClientAuthenticationError,
    >)
        ensures
            match old(self)@.gated(client_id, principal@, reclaim, now) {
                Ok(previous) => gated is Ok && gated->Ok_0@ == previous,
                Err(error) => gated == Err::<IdList, ClientAuthenticationError>(error),
            },
            final(self)@ == old(self)@.touched(client_id, principal@, NfsStatus::StaleClientId, now),
    {
        match self.touch(client_id, principal, NfsStatus::StaleClientId, now) {
            Ok(()) => {},
            Err(error) => {
                return Err(error);
            },
        }
        let previous = self.previous_ids(client_id);
        match self.recovery.allow(client_id, reclaim, now) {
            Ok(()) => {},
            Err(status) => {
                return Err(ClientAuthenticationError { status, client_id: Some(client_id) });
            },
        }
        if reclaim && previous.is_empty() {
            return Err(ClientAuthenticationError { status: NfsStatus::ReclaimBad, client_id: Some(client_id) });
        }
        if reclaim {
            Ok(previous)
        } else {
            Ok(IdList::new())
        }
    }
}

impl ClientSlot {
    /// There is a registration under the name.
    pub open spec fn used(self) -> bool {
        self.confirmed is Some || self.unconfirmed is Some
    }

    /// Whether there is a registration under the name.
    fn is_used(&self) -> (used: bool)
        ensures
            used == self.used(),
    {
        self.confirmed.is_some() || self.unconfirmed.is_some()
    }

    /// The same registrations again.
    pub fn copy(&self) -> (copy: Self)
        ensures
            copy == *self,
    {
        let confirmed = match &self.confirmed {
            Some(record) => Some(record.copy()),
            None => None,
        };
        let unconfirmed = match &self.unconfirmed {
            Some(record) => Some(record.copy()),
            None => None,
        };
        ClientSlot { confirmed, unconfirmed }
    }
}

/// The registrations that a change leaves; names without any are dropped.
pub open spec fn slots_changed(slots: Map<Seq<u8>, ClientSlot>, change: spec_fn(Seq<u8>, ClientSlot) -> ClientSlot) -> Map<
    Seq<u8>,
    ClientSlot,
> {
    Map::new(
        |name: Seq<u8>| slots.contains_key(name) && change(name, slots[name]).used(),
        |name: Seq<u8>| change(name, slots[name]),
    )
}

/// The unconfirmed registration is too old.
pub open spec fn outdated(slot: ClientSlot, now: u64, duration: u64) -> bool {
    slot.unconfirmed matches Some(record) && elapsed(now, record.created_at) >= duration
}

/// The registrations under a name once one that is too old is dropped.
pub open spec fn purged_slot(slot: ClientSlot, now: u64, duration: u64) -> ClientSlot {
    if outdated(slot, now, duration) {
        ClientSlot { unconfirmed: None, ..slot }
    } else {
        slot
    }
}

/// The client that ends because its registration is too old.
pub open spec fn outdated_client(slot: ClientSlot, now: u64, duration: u64) -> Option<u64> {
    if outdated(slot, now, duration) && !(slot.confirmed matches Some(record) && record.client_id
        == slot.unconfirmed->0.client_id) {
        Some(slot.unconfirmed->0.client_id)
    } else {
        None
    }
}

/// The client ends because its registration is too old.
pub open spec fn ends_outdated(slots: Map<Seq<u8>, ClientSlot>, client: u64, now: u64, duration: u64) -> bool {
    exists|name: Seq<u8>| #[trigger]
        slots.contains_key(name) && outdated_client(slots[name], now, duration) == Some(client)
}

impl ClientsView {
    /// The registry without registrations that are too old.
    pub open spec fn purged(self, now: u64) -> ClientsView {
        let slots = self.slots;
        let duration = self.lease_duration;
        ClientsView {
            slots: slots_changed(slots, |name: Seq<u8>, slot: ClientSlot| purged_slot(slot, now, duration)),
            client_owners: Map::new(
                |client: u64| self.client_owners.contains_key(client) && !ends_outdated(slots, client, now, duration),
                |client: u64| self.client_owners[client],
            ),
            ..self
        }
    }

    /// The registry without a client.
    pub open spec fn unregistered(self, client: u64) -> ClientsView {
        let left = if self.client_owners.contains_key(client) {
            let name = self.client_owners[client]@;
            ClientsView {
                client_owners: self.client_owners.remove(client),
                slots: slots_changed(
                    self.slots,
                    |at: Seq<u8>, slot: ClientSlot|
                        if at == name {
                            slot_without(slot, client)
                        } else {
                            slot
                        },
                ),
                ..self
            }
        } else {
            self
        };
        ClientsView {
            moved_leases: left.moved_leases.without(client),
            current_to_previous: left.current_to_previous.remove(client),
            recovery: GraceView { reclaimable: left.recovery.reclaimable.remove(client), ..left.recovery },
            leases: LeaseView { renewed: left.leases.renewed.remove(client), ..left.leases },
            ..left
        }
    }
}

/// The registrations under a name without those of a client.
pub open spec fn slot_without(slot: ClientSlot, client: u64) -> ClientSlot {
    ClientSlot {
        confirmed: if slot.confirmed matches Some(record) && record.client_id == client {
            None
        } else {
            slot.confirmed
        },
        unconfirmed: if slot.unconfirmed matches Some(record) && record.client_id == client {
            None
        } else {
            slot.unconfirmed
        },
    }
}

/// The clients that end because their registration is too old, under the first `n` names, in the order of the names.
pub open spec fn outdated_clients(
    slots: Map<Seq<u8>, ClientSlot>,
    names: Seq<Seq<u8>>,
    now: u64,
    duration: u64,
    n: nat,
) -> Seq<u64>
    decreases n,
{
    if n == 0 {
        seq![]
    } else {
        let before = outdated_clients(slots, names, now, duration, (n - 1) as nat);
        match outdated_client(slots[names[n - 1]], now, duration) {
            Some(client) => before.push(client),
            None => before,
        }
    }
}

/// The list names the client of each registration that is too old, once for each such registration.
pub open spec fn lists_outdated(slots: Map<Seq<u8>, ClientSlot>, now: u64, duration: u64, list: Seq<u64>) -> bool {
    exists|names: Seq<Seq<u8>>|
        names.no_duplicates() && names.to_set() == slots.dom() && list == #[trigger] outdated_clients(
            slots,
            names,
            now,
            duration,
            names.len(),
        )
}

/// The number of a client of this run.
pub open spec fn client_number(boot_tag: u32, counter: u32) -> u64 {
    ((boot_tag as u64) << 32) | (counter as u64)
}

/// The counter after another one; zero is left out when it starts again.
pub open spec fn counter_after(counter: u32) -> u32 {
    if counter == u32::MAX {
        1
    } else {
        (counter + 1) as u32
    }
}

/// The first number that no client has, and the counter to go on with.
pub open spec fn free_client(taken: Set<u64>, boot_tag: u32, counter: u32, tries: nat) -> (Option<u64>, u32)
    decreases tries,
{
    if tries == 0 {
        (None, counter)
    } else if counter != 0 && !taken.contains(client_number(boot_tag, counter)) {
        (Some(client_number(boot_tag, counter)), counter_after(counter))
    } else {
        free_client(taken, boot_tag, counter_after(counter), (tries - 1) as nat)
    }
}

impl ClientRegistry {
    /// Drops registrations that are too old; the clients that end by it.
    pub fn purge_unconfirmed(&mut self, now: u64) -> (stale: Vec<u64>)
        ensures
            final(self)@ == old(self)@.purged(now),
            forall|client: u64|
                stale@.contains(client) <==> #[trigger] ends_outdated(
                    old(self)@.slots,
                    client,
                    now,
                    old(self)@.lease_duration,
                ),
            lists_outdated(old(self)@.slots, now, old(self)@.lease_duration, stale@),
    {
        let ghost before = self@;
        let duration = self.lease_duration;
        let mut stale: Vec<u64> = Vec::new();
        self.slots.order_known();
        let ghost keys = self.slots.keys();
        let total = self.slots.len();
        let mut names: Vec<Vec<u8>> = Vec::new();
        let mut i: usize = 0;
        while i < total
            invariant
                i <= total,
                total == keys.len(),
                keys == self.slots.keys(),
                self@ == before,
                names@.len() == i,
                forall|j: int| 0 <= j < i ==> (#[trigger] names@[j])@ == keys[j],
            decreases total - i,
        {
            names.push(copy_bytes(self.slots.key_at(i).as_slice()));
            i += 1;
        }
        let mut i: usize = 0;
        while i < names.len()
            invariant
                i <= names@.len(),
                names@.len() == keys.len(),
                duration == before.lease_duration,
                keys.no_duplicates(),
                forall|j: int| 0 <= j < keys.len() ==> (#[trigger] names@[j])@ == keys[j],
                forall|j: int| 0 <= j < keys.len() ==> before.slots.contains_key(#[trigger] keys[j]),
                forall|k: Seq<u8>| #[trigger] before.slots.contains_key(k) ==> keys.contains(k),
                self@ == (ClientsView { slots: self@.slots, client_owners: self@.client_owners, ..before }),
                forall|k: Seq<u8>| #[trigger]
                    self@.slots.contains_key(k) == (before.slots.contains_key(k) && (keys.index_of(k) < i
                        ==> purged_slot(before.slots[k], now, duration).used())),
                forall|k: Seq<u8>| #[trigger]
                    self@.slots.contains_key(k) ==> self@.slots[k] == if keys.index_of(k) < i {
                        purged_slot(before.slots[k], now, duration)
                    } else {
                        before.slots[k]
                    },
                stale@ == outdated_clients(before.slots, keys, now, duration, i as nat),
                forall|c: u64| #[trigger]
                    stale@.contains(c) <==> exists|j: int|
                        0 <= j < i && outdated_client(before.slots[#[trigger] keys[j]], now, duration) == Some(c),
                forall|c: u64| #[trigger]
                    self@.client_owners.contains_key(c) <==> before.client_owners.contains_key(c) && !stale@.contains(
                        c,
                    ),
                forall|c: u64| #[trigger]
                    self@.client_owners.contains_key(c) ==> self@.client_owners[c] == before.client_owners[c],
            decreases names@.len() - i,
        {
            let ghost now_slots = self@.slots;
            let ghost key = keys[i as int];
            let ghost had = stale@;
            assert(keys.contains(key) && keys.index_of(key) == i);
            assert(now_slots.contains_key(key));
            let found = self.slots.remove(names[i].as_slice());
            if let Some(slot) = found {
                let mut slot = slot;
                assert(slot == before.slots[key]);
                let old_record = match &slot.unconfirmed {
                    Some(record) => if time_since(now, record.created_at) >= duration {
                        Some(record.client_id)
                    } else {
                        None
                    },
                    None => None,
                };
                if let Some(client) = old_record {
                    slot.unconfirmed = None;
                    let same = match &slot.confirmed {
                        Some(record) => record.client_id == client,
                        None => false,
                    };
                    if !same {
                        let _ = self.client_owners.remove(client);
                        stale.push(client);
                    }
                }
                assert(slot == purged_slot(before.slots[key], now, duration));
                if slot.is_used() {
                    let _ = self.slots.insert(copy_bytes(names[i].as_slice()), slot);
                }
            }
            proof {
                assert forall|k: Seq<u8>| #[trigger] self@.slots.contains_key(k) == (before.slots.contains_key(k) && (
                keys.index_of(k) < i + 1 ==> purged_slot(before.slots[k], now, duration).used())) by {
                    if k != key && before.slots.contains_key(k) {
                        assert(keys.contains(k));
                        assert(keys.index_of(k) != i);
                    }
                    assert(now_slots.contains_key(k) == now_slots.contains_key(k));
                }
                assert forall|k: Seq<u8>| #[trigger] self@.slots.contains_key(k) implies self@.slots[k] == if keys.index_of(
                    k,
                ) < i + 1 {
                    purged_slot(before.slots[k], now, duration)
                } else {
                    before.slots[k]
                } by {
                    assert(now_slots.contains_key(k));
                    if k != key {
                        assert(keys.contains(k));
                        assert(keys.index_of(k) != i);
                    }
                }
                let gone = outdated_client(before.slots[key], now, duration);
                assert(stale@ == match gone {
                    Some(c) => had.push(c),
                    None => had,
                });
                assert forall|c: u64| #[trigger] stale@.contains(c) <==> exists|j: int|
                    0 <= j < i + 1 && outdated_client(before.slots[#[trigger] keys[j]], now, duration) == Some(c) by {
                    if stale@.contains(c) {
                        let p = choose|p: int| 0 <= p < stale@.len() && stale@[p] == c;
                        if p < had.len() {
                            assert(had[p] == c);
                            assert(had.contains(c));
                        } else {
                            assert(outdated_client(before.slots[keys[i as int]], now, duration) == Some(c));
                        }
                    }
                    if exists|j: int|
                        0 <= j < i + 1 && outdated_client(before.slots[#[trigger] keys[j]], now, duration) == Some(c) {
                        let j = choose|j: int|
                            0 <= j < i + 1 && outdated_client(before.slots[#[trigger] keys[j]], now, duration) == Some(
                                c,
                            );
                        if j < i {
                            assert(had.contains(c));
                            let p = choose|p: int| 0 <= p < had.len() && had[p] == c;
                            assert(stale@[p] == c);
                        } else {
                            assert(stale@[stale@.len() - 1] == c);
                        }
                    }
                }
                assert forall|c: u64| #[trigger] self@.client_owners.contains_key(c)
                    <==> before.client_owners.contains_key(c) && !stale@.contains(c) by {
                    if had.contains(c) {
                        let p = choose|p: int| 0 <= p < had.len() && had[p] == c;
                        assert(stale@[p] == c);
                    }
                    if stale@.contains(c) && !had.contains(c) {
                        assert(gone == Some(c));
                    }
                    if gone == Some(c) {
                        assert(stale@[stale@.len() - 1] == c);
                    }
                }
            }
            i += 1;
        }
        proof {
            assert(keys.to_set() =~= before.slots.dom());
            assert(lists_outdated(before.slots, now, duration, stale@));
            assert forall|client: u64|
                stale@.contains(client) <==> #[trigger] ends_outdated(before.slots, client, now, duration) by {
                if stale@.contains(client) {
                    let j = choose|j: int|
                        0 <= j < keys.len() && outdated_client(before.slots[#[trigger] keys[j]], now, duration) == Some(
                            client,
                        );
                    assert(before.slots.contains_key(keys[j]));
                }
                if ends_outdated(before.slots, client, now, duration) {
                    let name = choose|name: Seq<u8>| #[trigger]
                        before.slots.contains_key(name) && outdated_client(before.slots[name], now, duration) == Some(
                            client,
                        );
                    assert(keys.contains(name));
                    let j = keys.index_of(name);
                    assert(outdated_client(before.slots[keys[j]], now, duration) == Some(client));
                }
            }
            let expected = before.purged(now);
            assert forall|k: Seq<u8>| self@.slots.contains_key(k) == expected.slots.contains_key(k) by {
                if before.slots.contains_key(k) {
                    assert(keys.contains(k));
                }
                assert(self@.slots.contains_key(k) == self@.slots.contains_key(k));
            }
            assert(self@.slots =~= expected.slots);
            assert(self@.client_owners =~= expected.client_owners);
            assert(self@ =~= expected);
        }
        stale
    }
}

/// Drops names without registrations.
fn drop_unused(slots: &mut ByteMap<ClientSlot>)
    ensures
        final(slots)@ == slots_changed(old(slots)@, |name: Seq<u8>, slot: ClientSlot| slot),
{
    let ghost before = slots@;
    slots.order_known();
    let ghost keys = slots.keys();
    let total = slots.len();
    let mut names: Vec<Vec<u8>> = Vec::new();
    let mut i: usize = 0;
    while i < total
        invariant
            i <= total,
            total == keys.len(),
            keys == slots.keys(),
            slots@ == before,
            keys.len() == slots.values().len(),
            forall|j: int| 0 <= j < keys.len() ==> before.contains_key(#[trigger] keys[j]),
            forall|j: int| 0 <= j < keys.len() ==> before[#[trigger] keys[j]] == slots.values()[j],
            forall|p: int|
                0 <= p < names@.len() ==> before.contains_key((#[trigger] names@[p])@) && !before[names@[p]@].used(),
            forall|j: int|
                0 <= j < i && !before[#[trigger] keys[j]].used() ==> exists|p: int|
                    0 <= p < names@.len() && (#[trigger] names@[p])@ == keys[j],
        decreases total - i,
    {
        let ghost had = names@;
        if !slots.value_at(i).is_used() {
            names.push(copy_bytes(slots.key_at(i).as_slice()));
        }
        proof {
            assert forall|j: int| 0 <= j < i + 1 && !before[#[trigger] keys[j]].used() implies exists|p: int|
                0 <= p < names@.len() && (#[trigger] names@[p])@ == keys[j] by {
                if j < i {
                    let p = choose|p: int| 0 <= p < had.len() && (#[trigger] had[p])@ == keys[j];
                    assert(names@[p]@ == keys[j]);
                } else {
                    assert(names@[names@.len() - 1]@ == keys[j]);
                }
            }
        }
        i += 1;
    }
    proof {
        assert forall|k: Seq<u8>| #[trigger] before.contains_key(k) && !before[k].used() implies exists|p: int|
            0 <= p < names@.len() && (#[trigger] names@[p])@ == k by {
            assert(keys.contains(k));
            let j = keys.index_of(k);
            assert(!before[keys[j]].used());
        }
    }
    let mut i: usize = 0;
    while i < names.len()
        invariant
            i <= names@.len(),
            forall|p: int|
                0 <= p < names@.len() ==> before.contains_key((#[trigger] names@[p])@) && !before[names@[p]@].used(),
            forall|k: Seq<u8>| #[trigger] slots@.contains_key(k) ==> before.contains_key(k) && slots@[k] == before[k],
            forall|k: Seq<u8>| #[trigger] before.contains_key(k) && before[k].used() ==> slots@.contains_key(k),
            forall|p: int| 0 <= p < i ==> !slots@.contains_key((#[trigger] names@[p])@),
        decreases names@.len() - i,
    {
        let _ = slots.remove(names[i].as_slice());
        i += 1;
    }
    proof {
        let expected = slots_changed(before, |name: Seq<u8>, slot: ClientSlot| slot);
        assert forall|k: Seq<u8>| slots@.contains_key(k) == expected.contains_key(k) by {
            if slots@.contains_key(k) && !before[k].used() {
                let p = choose|p: int| 0 <= p < names@.len() && (#[trigger] names@[p])@ == k;
                assert(!slots@.contains_key(names@[p]@));
            }
        }
        assert(slots@ =~= expected);
    }
}

impl ClientRegistry {
    /// Drops a client.
    pub fn remove_client_registration(&mut self, client: u64)
        ensures
            final(self)@ == old(self)@.unregistered(client),
    {
        let ghost before = self@;
        self.moved_leases.remove_client(client);
        if let Some(name) = self.client_owners.remove(client) {
            let found = match self.slots.get(name.as_slice()) {
                Some(slot) => Some(slot.copy()),
                None => None,
            };
            if let Some(slot) = found {
                let mut slot = slot;
                let confirmed = match &slot.confirmed {
                    Some(record) => record.client_id == client,
                    None => false,
                };
                if confirmed {
                    slot.confirmed = None;
                }
                let unconfirmed = match &slot.unconfirmed {
                    Some(record) => record.client_id == client,
                    None => false,
                };
                if unconfirmed {
                    slot.unconfirmed = None;
                }
                let _ = self.slots.insert(copy_bytes(name.as_slice()), slot);
            }
            drop_unused(&mut self.slots);
            assert(self@.slots =~= before.unregistered(client).slots);
            assert(self@.client_owners =~= before.unregistered(client).client_owners);
        }
        let _ = self.current_to_previous.remove(client);
        self.recovery.complete_client_reclaim(client);
        self.leases.remove(client);
        assert(self@.current_to_previous =~= before.current_to_previous.remove(client));
        assert(self@ =~= before.unregistered(client));
    }

    /// Forgets clients whose lease is over, where there are too many; those whose state has not ended yet stay.
    pub fn bound_expired_clientids(&mut self, maximum: usize)
        ensures
            final(self)@ == (ClientsView { expired: final(self)@.expired, ..old(self)@ }),
            expired_bounded(old(self)@.expired, final(self)@.expired, old(self)@.pending_expiry, maximum),
    {
        let ghost before = self@;
        let most: usize = if maximum > 1 {
            maximum
        } else {
            1
        };
        self.expired.order_known();
        let mut count = self.expired.len();
        while count > most
            invariant
                most == if maximum > 1 {
                    maximum
                } else {
                    1
                },
                before == old(self)@,
                self@ == (ClientsView { expired: self@.expired, ..before }),
                self@.expired.finite(),
                count == self@.expired.len(),
                self@.expired.subset_of(before.expired),
                before.expired.intersect(before.pending_expiry).subset_of(self@.expired),
                before.expired.finite(),
                before.expired.len() <= most ==> self@.expired == before.expired,
                before.expired.len() > most ==> self@.expired.len() >= most,
            decreases count,
        {
            self.expired.order_known();
            let ghost keys = self.expired.keys();
            let total = self.expired.len();
            let ghost held = self@;
            let mut i: usize = 0;
            let mut removable: Option<u64> = None;
            while i < total && removable.is_none()
                invariant
                    i <= total,
                    total == keys.len(),
                    keys == self.expired.keys(),
                    self@ == held,
                    forall|j: int| 0 <= j < keys.len() ==> self.expired@.contains_key(#[trigger] keys[j]),
                    match removable {
                        Some(client) => self.expired@.contains_key(client) && !held.pending_expiry.contains(client),
                        None => forall|j: int| 0 <= j < i ==> held.pending_expiry.contains(#[trigger] keys[j]),
                    },
                decreases total - i + if removable is None {
                    1int
                } else {
                    0
                },
            {
                let client = self.expired.key_at(i);
                if !self.pending_expiry.contains(client) {
                    removable = Some(client);
                } else {
                    i += 1;
                }
            }
            match removable {
                Some(client) => {
                    let _ = self.expired.remove(client);
                    proof {
                        assert(self@.expired =~= held.expired.remove(client));
                        assert(held.expired.contains(client));
                    }
                    count = count - 1;
                },
                None => {
                    proof {
                        assert forall|client: u64| self@.expired.contains(client) implies self@.pending_expiry.contains(
                            client,
                        ) by {
                            assert(self.expired@.contains_key(client));
                            assert(keys.contains(client));
                        }
                    }
                    return;
                },
            }
        }
    }

    /// A number that no client has.
    pub fn allocate_client_id(&mut self) -> (id: Option<u64>)
        ensures
            ({
                let found = free_client(
                    old(self)@.client_owners.dom(),
                    old(self)@.boot_tag,
                    old(self)@.next_client,
                    u32::MAX as nat,
                );
                &&& id == found.0
                &&& final(self)@ == (ClientsView { next_client: found.1, ..old(self)@ })
            }),
    {
        let ghost before = self@;
        let mut left: u32 = u32::MAX;
        while left > 0
            invariant
                before == old(self)@,
                self@ == (ClientsView { next_client: self@.next_client, ..before }),
                free_client(before.client_owners.dom(), before.boot_tag, before.next_client, u32::MAX as nat)
                    == free_client(before.client_owners.dom(), before.boot_tag, self@.next_client, left as nat),
            decreases left,
        {
            let counter = self.next_client;
            self.next_client = if counter == u32::MAX {
                1
            } else {
                counter + 1
            };
            if counter != 0 {
                let id = ((self.boot_tag as u64) << 32) | (counter as u64);
                if !self.client_owners.contains(id) {
                    return Some(id);
                }
            }
            left -= 1;
        }
        None
    }
}

/// Clients are forgotten only where there are too many, and no more than that; those whose state has not ended yet
/// stay.
pub open spec fn expired_bounded(before: Set<u64>, after: Set<u64>, pending: Set<u64>, maximum: usize) -> bool {
    let most: usize = if maximum > 1 {
        maximum
    } else {
        1
    };
    &&& after.subset_of(before)
    &&& before.intersect(pending).subset_of(after)
    &&& before.len() <= most ==> after == before
    &&& before.len() > most ==> after.len() >= most
    &&& after.len() <= most || after.subset_of(pending)
}

} // verus!
