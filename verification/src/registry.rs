//! What the server knows of its owners, of the states they hold, and of what they may reclaim.

use std::sync::Arc;

use vstd::prelude::*;

use crate::bytemap::ByteMap;
use crate::bytes::copy_bytes;
use crate::keyset::KeySet;
use crate::numbermap::NumberMap;
use crate::owner::OwnerSequence;
use crate::protocol::{
    owner_place, stable_of, DelegationKind, LockStateOwner, OwnerKey, OwnerRequestDigest, ReplayEffect, ResOp,
    RuntimeFile, StateId,
};
use crate::record::{
    JournalKey, JournalRecord, KeyView, RecordView, ReplayOwnerKind, ReplayRecord, ReplayRenewalSource, ReplayView,
};
use crate::recovery::{RecoveredLock, RecoveredOpen, RecoveredReplay};
use crate::stateid::{StateIdTable, TableView};

verus! {

/// Something that belongs to a client.
pub trait ClientOwned {
    /// The client.
    spec fn client(&self) -> u64;

    /// The client.
    fn client_id(&self) -> (id: u64)
        ensures
            id == self.client(),
    ;
}

/// What does not belong to a client.
pub open spec fn without_client<T: ClientOwned>(map: Map<Seq<u8>, T>, client: u64) -> Map<Seq<u8>, T> {
    Map::new(|k: Seq<u8>| map.contains_key(k) && map[k].client() != client, |k: Seq<u8>| map[k])
}

/// The places of what belongs to a client.
pub open spec fn of_client<T: ClientOwned>(map: Map<Seq<u8>, T>, client: u64) -> Set<Seq<u8>> {
    map.dom().filter(|k: Seq<u8>| map[k].client() == client)
}

/// How much belongs to a client.
pub fn count_client<T: ClientOwned>(map: &ByteMap<T>, client: u64) -> (count: usize)
    ensures
        of_client(map@, client).finite(),
        count == of_client(map@, client).len(),
{
    map.order_known();
    let ghost keys = map.keys();
    let total = map.len();
    let mut count: usize = 0;
    let mut i: usize = 0;
    let ghost mut found: Set<Seq<u8>> = Set::empty();
    while i < total
        invariant
            i <= total,
            total == keys.len(),
            keys == map.keys(),
            keys.no_duplicates(),
            map.keys().len() == map.values().len(),
            forall|j: int| 0 <= j < keys.len() ==> map@.contains_key(#[trigger] keys[j]),
            forall|j: int| 0 <= j < keys.len() ==> map@[#[trigger] keys[j]] == map.values()[j],
            count <= i,
            found.finite(),
            count == found.len(),
            forall|k: Seq<u8>| #[trigger]
                found.contains(k) <==> (exists|j: int| 0 <= j < i && #[trigger] keys[j] == k) && map@[k].client()
                    == client,
        decreases total - i,
    {
        let ghost before = found;
        if map.value_at(i).client_id() == client {
            count += 1;
            proof {
                found = found.insert(keys[i as int]);
                assert(!before.contains(keys[i as int]));
            }
        }
        assert forall|k: Seq<u8>| #[trigger] found.contains(k) <==> (exists|j: int|
            0 <= j < i + 1 && #[trigger] keys[j] == k) && map@[k].client() == client by {
            if found.contains(k) {
                if before.contains(k) {
                    let j = choose|j: int| 0 <= j < i && #[trigger] keys[j] == k;
                    assert(keys[j] == k);
                } else {
                    assert(keys[i as int] == k);
                }
            }
            if (exists|j: int| 0 <= j < i + 1 && #[trigger] keys[j] == k) && map@[k].client() == client {
                let j = choose|j: int| 0 <= j < i + 1 && #[trigger] keys[j] == k;
                if j < i {
                    assert(keys[j] == k);
                    assert(before.contains(k));
                }
            }
        }
        i += 1;
    }
    proof {
        assert forall|k: Seq<u8>| of_client(map@, client).contains(k) implies found.contains(k) by {
            assert(keys.contains(k));
            let j = choose|j: int| 0 <= j < keys.len() && #[trigger] keys[j] == k;
            assert(keys[j] == k);
        }
        assert(found =~= of_client(map@, client));
    }
    count
}

/// The places are those of what belongs to a client, each once.
pub open spec fn lists_client<T: ClientOwned>(places: Seq<Seq<u8>>, map: Map<Seq<u8>, T>, client: u64) -> bool {
    &&& places.no_duplicates()
    &&& forall|place: Seq<u8>| #[trigger]
        places.contains(place) <==> map.contains_key(place) && map[place].client() == client
}

/// The places of a list.
pub open spec fn place_views(places: Seq<Vec<u8>>) -> Seq<Seq<u8>> {
    Seq::new(places.len(), |i: int| places[i]@)
}

/// The places of what belongs to a client, each once.
pub fn client_places<T: ClientOwned>(map: &ByteMap<T>, client: u64) -> (places: Vec<Vec<u8>>)
    ensures
        lists_client(place_views(places@), map@, client),
{
    map.order_known();
    let ghost keys = map.keys();
    let total = map.len();
    let mut places: Vec<Vec<u8>> = Vec::new();
    let ghost mut at: Seq<int> = seq![];
    let mut i: usize = 0;
    while i < total
        invariant
            i <= total,
            total == keys.len(),
            keys == map.keys(),
            keys.no_duplicates(),
            map.keys().len() == map.values().len(),
            forall|j: int| 0 <= j < keys.len() ==> map@.contains_key(#[trigger] keys[j]),
            forall|j: int| 0 <= j < keys.len() ==> map@[#[trigger] keys[j]] == map.values()[j],
            at.len() == places@.len(),
            forall|p: int|
                0 <= p < at.len() ==> 0 <= #[trigger] at[p] < i && places@[p]@ == keys[at[p]]
                    && map@[keys[at[p]]].client() == client,
            forall|p: int, q: int| 0 <= p < q < at.len() ==> #[trigger] at[p] < #[trigger] at[q],
            forall|j: int|
                0 <= j < i && map@[#[trigger] keys[j]].client() == client ==> exists|p: int|
                    0 <= p < at.len() && #[trigger] at[p] == j,
        decreases total - i,
    {
        let ghost had = at;
        if map.value_at(i).client_id() == client {
            places.push(copy_bytes(map.key_at(i).as_slice()));
            proof {
                at = at.push(i as int);
            }
        }
        proof {
            assert forall|j: int| 0 <= j < i + 1 && map@[#[trigger] keys[j]].client() == client implies exists|p: int|
                0 <= p < at.len() && #[trigger] at[p] == j by {
                if j < i {
                    let p = choose|p: int| 0 <= p < had.len() && #[trigger] had[p] == j;
                    assert(at[p] == j);
                } else {
                    assert(at[at.len() - 1] == j);
                }
            }
        }
        i += 1;
    }
    proof {
        let views = place_views(places@);
        assert forall|p: int, q: int| 0 <= p < views.len() && 0 <= q < views.len() && p != q implies views[p]
            != views[q] by {
            if p < q {
                assert(at[p] < at[q]);
            } else {
                assert(at[q] < at[p]);
            }
            assert(keys[at[p]] != keys[at[q]]);
        }
        assert forall|place: Seq<u8>| #[trigger] views.contains(place) <==> map@.contains_key(place)
            && map@[place].client() == client by {
            if views.contains(place) {
                let p = choose|p: int| 0 <= p < views.len() && views[p] == place;
                let j = at[p];
                assert(views[p] == places@[p]@);
                assert(places@[p]@ == keys[j]);
            }
            if map@.contains_key(place) && map@[place].client() == client {
                assert(keys.contains(place));
                let j = choose|j: int| 0 <= j < keys.len() && keys[j] == place;
                assert(map@[keys[j]].client() == client);
                let p = choose|p: int| 0 <= p < at.len() && #[trigger] at[p] == j;
                assert(views[p] == places@[p]@);
                assert(places@[p]@ == keys[j]);
                assert(views[p] == place);
            }
        }
    }
    places
}

/// Drops what belongs to a client.
pub fn drop_client<T: ClientOwned>(map: &mut ByteMap<T>, client: u64)
    ensures
        final(map)@ == without_client(old(map)@, client),
{
    let ghost before = map@;
    let places = client_places(map, client);
    let ghost views = place_views(places@);
    let mut i: usize = 0;
    while i < places.len()
        invariant
            i <= places@.len(),
            views == place_views(places@),
            lists_client(views, before, client),
            forall|k: Seq<u8>| #[trigger] map@.contains_key(k) ==> before.contains_key(k) && map@[k] == before[k],
            forall|k: Seq<u8>| #[trigger]
                before.contains_key(k) && before[k].client() != client ==> map@.contains_key(k),
            forall|j: int| 0 <= j < i ==> !map@.contains_key(#[trigger] views[j]),
        decreases places@.len() - i,
    {
        assert(views[i as int] == places@[i as int]@);
        assert(views.contains(views[i as int]));
        let _ = map.remove(places[i].as_slice());
        i += 1;
    }
    proof {
        assert forall|k: Seq<u8>| map@.contains_key(k) == without_client(before, client).contains_key(k) by {
            if map@.contains_key(k) && before[k].client() == client {
                assert(views.contains(k));
                let j = choose|j: int| 0 <= j < views.len() && views[j] == k;
                assert(!map@.contains_key(views[j]));
            }
        }
        assert(map@ =~= without_client(before, client));
    }
}

/// An owner of opens or of locks.
pub struct Owner {
    pub key: OwnerKey,
    pub sequence: OwnerSequence,
    pub confirmed: bool,
    pub active_states: usize,
}

impl Owner {
    /// The same owner again.
    pub fn copy(&self) -> (copy: Self)
        ensures
            copy == *self,
    {
        Owner {
            key: self.key.copy(),
            sequence: self.sequence.copy(),
            confirmed: self.confirmed,
            active_states: self.active_states,
        }
    }
}

impl ClientOwned for Owner {
    open spec fn client(&self) -> u64 {
        self.key.client_id
    }

    fn client_id(&self) -> (id: u64) {
        self.key.client_id
    }
}

/// The open of a file by an owner.
pub struct OpenLink {
    pub owner: OwnerKey,
    pub file: RuntimeFile,
    pub state_id: StateId,
}

impl ClientOwned for OpenLink {
    open spec fn client(&self) -> u64 {
        self.owner.client_id
    }

    fn client_id(&self) -> (id: u64) {
        self.owner.client_id
    }
}

/// The locks of a file by an owner, through an open.
pub struct LockLink {
    pub owner: LockStateOwner,
    pub file: RuntimeFile,
    pub state_id: StateId,
}

impl ClientOwned for LockLink {
    open spec fn client(&self) -> u64 {
        self.owner.owner.client_id
    }

    fn client_id(&self) -> (id: u64) {
        self.owner.owner.client_id
    }
}

/// A delegation that may be granted with an open.
#[derive(Clone, Copy, Debug, PartialEq, Eq, Structural)]
pub struct PendingDelegationEligibility {
    pub file: RuntimeFile,
    pub client_id: u64,
    pub kind: DelegationKind,
    pub open_reservation: u64,
}

/// An access that goes on, against which no delegation may be granted.
#[derive(Clone, Copy, Debug, PartialEq, Eq, Structural)]
pub struct PendingDelegationAccess {
    pub file: RuntimeFile,
    pub client_id: Option<u64>,
    pub access: DelegationKind,
    pub truncate: bool,
}

/// An open that has ended, whose file is still held for it.
#[derive(Clone, Copy, Debug, PartialEq, Eq)]
pub struct ReleasedOpen {
    pub client_id: u64,
    pub file: RuntimeFile,
    pub pin: [u8; 16],
}

/// A file that is to be let go.
#[derive(Clone, Copy, Debug, PartialEq, Eq)]
pub struct PendingPinRelease {
    pub release_id: u64,
    pub open: ReleasedOpen,
}

/// The states of the server.
pub struct StateRegistry {
    pub open_owners: ByteMap<Owner>,
    pub lock_owners: ByteMap<Owner>,
    pub open_by_owner_file: ByteMap<OpenLink>,
    pub lock_by_state: ByteMap<LockLink>,
    /// The identity that an open had before the restart, by the identity of the open that reclaimed it.
    pub reclaimed_open_ancestry: ByteMap<[u8; 12]>,
    pub recovered_opens: ByteMap<RecoveredOpen>,
    pub recovered_locks: ByteMap<RecoveredLock>,
    pub recovered_replays: ByteMap<RecoveredReplay>,
    pub recovered_cleanup_keys: KeySet,
    pub reserved_recovered_opens: ByteMap<()>,
    pub stateids: StateIdTable,
    pub reserved_states: usize,
    pub next_reservation: u64,
    pub delegation_eligibility: NumberMap<PendingDelegationEligibility>,
    pub next_delegation_eligibility: u64,
    pub delegation_access: NumberMap<PendingDelegationAccess>,
    pub next_delegation_access: u64,
    pub pending_pin_releases: Vec<PendingPinRelease>,
    pub next_pin_release_id: u64,
}

/// What the states of the server stand for.
#[verifier::ext_equal]
pub struct StateView {
    pub open_owners: Map<Seq<u8>, Owner>,
    pub lock_owners: Map<Seq<u8>, Owner>,
    pub open_by_owner_file: Map<Seq<u8>, OpenLink>,
    pub lock_by_state: Map<Seq<u8>, LockLink>,
    pub reclaimed_open_ancestry: Map<Seq<u8>, [u8; 12]>,
    pub recovered_opens: Map<Seq<u8>, RecoveredOpen>,
    pub recovered_locks: Map<Seq<u8>, RecoveredLock>,
    pub recovered_replays: Map<Seq<u8>, RecoveredReplay>,
    pub recovered_cleanup_keys: Set<KeyView>,
    pub reserved_recovered_opens: Set<Seq<u8>>,
    pub stateids: TableView,
    pub reserved_states: usize,
    pub next_reservation: u64,
    pub delegation_eligibility: Map<u64, PendingDelegationEligibility>,
    pub next_delegation_eligibility: u64,
    pub delegation_access: Map<u64, PendingDelegationAccess>,
    pub next_delegation_access: u64,
    pub pending_pin_releases: Seq<PendingPinRelease>,
    pub next_pin_release_id: u64,
}

impl View for StateRegistry {
    type V = StateView;

    open spec fn view(&self) -> StateView {
        StateView {
            open_owners: self.open_owners@,
            lock_owners: self.lock_owners@,
            open_by_owner_file: self.open_by_owner_file@,
            lock_by_state: self.lock_by_state@,
            reclaimed_open_ancestry: self.reclaimed_open_ancestry@,
            recovered_opens: self.recovered_opens@,
            recovered_locks: self.recovered_locks@,
            recovered_replays: self.recovered_replays@,
            recovered_cleanup_keys: self.recovered_cleanup_keys@,
            reserved_recovered_opens: self.reserved_recovered_opens@.dom(),
            stateids: self.stateids@,
            reserved_states: self.reserved_states,
            next_reservation: self.next_reservation,
            delegation_eligibility: self.delegation_eligibility@,
            next_delegation_eligibility: self.next_delegation_eligibility,
            delegation_access: self.delegation_access@,
            next_delegation_access: self.next_delegation_access,
            pending_pin_releases: self.pending_pin_releases@,
            next_pin_release_id: self.next_pin_release_id,
        }
    }
}

/// Whose sequence a request is in.
#[derive(Clone, Copy, Debug, PartialEq, Eq, Structural)]
pub enum ReservedOwnerKind {
    Open,
    Lock,
}

/// The place that a running request has in its owner's sequence.
pub struct OwnerReservation {
    pub kind: ReservedOwnerKind,
    pub owner: OwnerKey,
    pub sequence_id: u32,
    pub digest: OwnerRequestDigest,
    pub reserved_state: bool,
    pub created_owner: bool,
}

/// The place of an owner.
pub open spec fn place_of_owner(owner: OwnerKey) -> Seq<u8> {
    owner_place(owner@.0, owner@.1)
}

/// One less, but not less than none.
pub open spec fn one_less(count: usize) -> usize {
    if count == 0 {
        0
    } else {
        (count - 1) as usize
    }
}

/// The owner is not in use: it was made for a request that came to nothing.
pub open spec fn idle_owner(owner: Owner) -> bool {
    owner.active_states == 0 && owner.sequence.last is None && owner.sequence.pending is None
}

impl StateView {
    /// The owners of a kind.
    pub open spec fn owners(self, kind: ReservedOwnerKind) -> Map<Seq<u8>, Owner> {
        match kind {
            ReservedOwnerKind::Open => self.open_owners,
            ReservedOwnerKind::Lock => self.lock_owners,
        }
    }

    /// The registry with other owners of a kind.
    pub open spec fn with_owners(self, kind: ReservedOwnerKind, owners: Map<Seq<u8>, Owner>) -> StateView {
        match kind {
            ReservedOwnerKind::Open => StateView { open_owners: owners, ..self },
            ReservedOwnerKind::Lock => StateView { lock_owners: owners, ..self },
        }
    }

    /// The registry once a request gives its place in its owner's sequence back.
    pub open spec fn dropped(self, reservation: OwnerReservation) -> StateView {
        let owners = self.owners(reservation.kind);
        let place = place_of_owner(reservation.owner);
        let left = if owners.contains_key(place) {
            let owner = Owner {
                sequence: owners[place].sequence.cancelled(reservation.sequence_id, reservation.digest),
                ..owners[place]
            };
            if reservation.created_owner && idle_owner(owner) {
                owners.remove(place)
            } else {
                owners.insert(place, owner)
            }
        } else {
            owners
        };
        StateView {
            reserved_states: if reservation.reserved_state {
                one_less(self.reserved_states)
            } else {
                self.reserved_states
            },
            ..self.with_owners(reservation.kind, left)
        }
    }

    /// The request is the one that its owner waits for.
    pub open spec fn awaits(self, reservation: OwnerReservation) -> bool {
        let owners = self.owners(reservation.kind);
        let place = place_of_owner(reservation.owner);
        owners.contains_key(place) && owners[place].sequence.running(reservation.sequence_id, reservation.digest)
    }

    /// The registry once the owner has the reply to its request.
    pub open spec fn answered(self, reservation: OwnerReservation, reply: Arc<ResOp>, effect: ReplayEffect) -> StateView {
        let owners = self.owners(reservation.kind);
        let place = place_of_owner(reservation.owner);
        StateView {
            reserved_states: if reservation.reserved_state {
                one_less(self.reserved_states)
            } else {
                self.reserved_states
            },
            ..self.with_owners(
                reservation.kind,
                owners.insert(
                    place,
                    Owner {
                        sequence: owners[place].sequence.answered(
                            reservation.sequence_id,
                            reservation.digest,
                            reply,
                            effect,
                        ),
                        ..owners[place]
                    },
                ),
            )
        }
    }

    /// The registry once the owner has the reply, or has its place back where it waits for another request.
    pub open spec fn settled(self, reservation: OwnerReservation, reply: Arc<ResOp>, effect: ReplayEffect) -> StateView {
        if self.awaits(reservation) {
            self.answered(reservation, reply, effect)
        } else {
            self.dropped(reservation)
        }
    }
}

/// The kind of the owner in the journal.
pub open spec fn stable_kind(kind: ReservedOwnerKind) -> ReplayOwnerKind {
    match kind {
        ReservedOwnerKind::Open => ReplayOwnerKind::Open,
        ReservedOwnerKind::Lock => ReplayOwnerKind::Lock,
    }
}

/// The key of the record of an owner's last reply.
pub open spec fn replay_key_of(reservation: OwnerReservation) -> KeyView {
    KeyView::Replay {
        client_id: reservation.owner.client_id,
        owner_kind: stable_kind(reservation.kind),
        owner: reservation.owner.owner@,
    }
}

/// The record of an owner's last reply.
pub open spec fn replay_record_of(reservation: OwnerReservation, effect: ReplayEffect, reply: Seq<u8>) -> RecordView {
    RecordView::Replay(
        ReplayView {
            client_id: reservation.owner.client_id,
            owner_kind: stable_kind(reservation.kind),
            owner: reservation.owner.owner@,
            sequence_id: reservation.sequence_id,
            request_digest: reservation.digest.0@,
            reply,
            current_object: match effect.current_file {
                Some(file) => Some(stable_of(file)),
                None => None,
            },
            renewal_source: match effect.stateid_renewal_client {
                Some(client_id) => ReplayRenewalSource::StateId { client_id },
                None => ReplayRenewalSource::Unset,
            },
        },
    )
}

impl OwnerReservation {
    /// The key of the record of the owner's last reply.
    pub fn replay_key(&self) -> (key: JournalKey)
        ensures
            key@ == replay_key_of(*self),
    {
        JournalKey::Replay {
            client_id: self.owner.client_id,
            owner_kind: match self.kind {
                ReservedOwnerKind::Open => ReplayOwnerKind::Open,
                ReservedOwnerKind::Lock => ReplayOwnerKind::Lock,
            },
            owner: copy_bytes(self.owner.owner.as_slice()),
        }
    }

    /// The record of the owner's last reply.
    pub fn replay_record(&self, effect: ReplayEffect, reply: &Vec<u8>) -> (record: JournalRecord)
        ensures
            record@ == replay_record_of(*self, effect, reply@),
    {
        let current_object = match effect.current_file {
            Some(file) => Some(file.stable()),
            None => None,
        };
        let renewal_source = match effect.stateid_renewal_client {
            Some(client_id) => ReplayRenewalSource::StateId { client_id },
            None => ReplayRenewalSource::Unset,
        };
        let record = JournalRecord::Replay(
            ReplayRecord {
                client_id: self.owner.client_id,
                owner_kind: match self.kind {
                    ReservedOwnerKind::Open => ReplayOwnerKind::Open,
                    ReservedOwnerKind::Lock => ReplayOwnerKind::Lock,
                },
                owner: copy_bytes(self.owner.owner.as_slice()),
                sequence_id: self.sequence_id,
                request_digest: self.digest.0,
                reply: copy_bytes(reply.as_slice()),
                current_object,
                renewal_source,
            },
        );
        assert(record@ =~= replay_record_of(*self, effect, reply@));
        record
    }
}

impl StateRegistry {
    /// Gives the place of a request in its owner's sequence back.
    pub fn drop_reservation(&mut self, reservation: OwnerReservation)
        ensures
            final(self)@ == old(self)@.dropped(reservation),
    {
        let ghost before = self@;
        let place = reservation.owner.place();
        let found = match reservation.kind {
            ReservedOwnerKind::Open => self.open_owners.remove(place.as_slice()),
            ReservedOwnerKind::Lock => self.lock_owners.remove(place.as_slice()),
        };
        if let Some(owner) = found {
            let mut owner = owner;
            owner.sequence.cancel(reservation.sequence_id, reservation.digest);
            let idle = owner.active_states == 0 && !owner.sequence.has_last() && !owner.sequence.has_pending();
            if !(reservation.created_owner && idle) {
                let _ = match reservation.kind {
                    ReservedOwnerKind::Open => self.open_owners.insert(place, owner),
                    ReservedOwnerKind::Lock => self.lock_owners.insert(place, owner),
                };
            }
        }
        if reservation.reserved_state && self.reserved_states > 0 {
            self.reserved_states = self.reserved_states - 1;
        }
        assert(self@.open_owners =~= before.dropped(reservation).open_owners);
        assert(self@.lock_owners =~= before.dropped(reservation).lock_owners);
        assert(self@ =~= before.dropped(reservation));
    }

    /// Gives the owner the reply to its request, where it waits for it; otherwise the place is given back.
    pub fn settle_reservation(&mut self, reservation: OwnerReservation, reply: Arc<ResOp>, effect: ReplayEffect) -> (settled:
        bool)
        ensures
            settled == old(self)@.awaits(reservation),
            final(self)@ == old(self)@.settled(reservation, reply, effect),
    {
        let ghost before = self@;
        let place = reservation.owner.place();
        let found = match reservation.kind {
            ReservedOwnerKind::Open => self.open_owners.get(place.as_slice()),
            ReservedOwnerKind::Lock => self.lock_owners.get(place.as_slice()),
        };
        let mut owner = match found {
            Some(owner) => owner.copy(),
            None => {
                self.drop_reservation(reservation);
                return false;
            },
        };
        if !owner.sequence.commit(reservation.sequence_id, reservation.digest, reply, effect) {
            self.drop_reservation(reservation);
            return false;
        }
        let _ = match reservation.kind {
            ReservedOwnerKind::Open => self.open_owners.insert(place, owner),
            ReservedOwnerKind::Lock => self.lock_owners.insert(place, owner),
        };
        if reservation.reserved_state && self.reserved_states > 0 {
            self.reserved_states = self.reserved_states - 1;
        }
        assert(self@ =~= before.answered(reservation, reply, effect));
        true
    }
}

} // verus!
