//! Lock owners that are not needed any more.

use vstd::prelude::*;

use crate::bytes::copy_bytes;
use crate::files::{FileTable, FileView};
use crate::identity::{Principal, PrincipalView};
use crate::journal::{ChangeView, PersistBatch};
use crate::locks::{holds_locks, owner_holds};
use crate::protocol::{NfsStatus, OwnerKey};
use crate::record::{JournalKey, KeyView, ReplayOwnerKind};
use crate::registry::{place_of_owner, place_views, StateRegistry, StateView};
use crate::runtime::openstate::renewed;
use crate::runtime::{Nfs4Runtime, RuntimeView};
use crate::stateid::StateDisposition;

verus! {

/// What is to be done for a request to forget a lock owner.
#[allow(inconsistent_fields)]
pub enum ReleaseLockOwnerDecision {
    Execute { client_id: u64 },
    Error { status: NfsStatus, client_id: Option<u64> },
}

/// An owner has locks of some file.
pub open spec fn holds_any(files: Map<Seq<u8>, FileView>, owner: (u64, Seq<u8>)) -> bool {
    exists|place: Seq<u8>| #[trigger] files.contains_key(place) && owner_holds(files[place].locks, owner)
}

/// What is to be done for a request to forget a lock owner.
pub open spec fn release_told(view: RuntimeView, owner: OwnerKey, principal: PrincipalView, now: u64) -> ReleaseLockOwnerDecision {
    if owner.owner@.len() > view.limits.max_client_owner_size {
        ReleaseLockOwnerDecision::Error { status: NfsStatus::Resource, client_id: None }
    } else {
        match view.clients.touch_refused(owner.client_id, principal, NfsStatus::StaleClientId, now) {
            Some(error) => ReleaseLockOwnerDecision::Error { status: error.status, client_id: error.client_id },
            None => if holds_any(view.files, owner@) {
                ReleaseLockOwnerDecision::Error { status: NfsStatus::LocksHeld, client_id: Some(owner.client_id) }
            } else {
                ReleaseLockOwnerDecision::Execute { client_id: owner.client_id }
            },
        }
    }
}

impl FileTable {
    /// Whether an owner has locks of some file.
    fn owner_holds_any(&self, owner: &OwnerKey) -> (held: bool)
        ensures
            held == holds_any(self@, owner@),
    {
        let files = &self.files;
        files.order_known();
        let ghost keys = files.keys();
        let total = files.len();
        let mut i: usize = 0;
        while i < total
            invariant
                i <= total,
                total == keys.len(),
                keys == files.keys(),
                files@ == self.files@,
                keys.len() == files.values().len(),
                forall|j: int| 0 <= j < keys.len() ==> files@.contains_key(#[trigger] keys[j]),
                forall|j: int| 0 <= j < keys.len() ==> files@[#[trigger] keys[j]] == files.values()[j],
                forall|j: int| 0 <= j < i ==> !owner_holds(files@[#[trigger] keys[j]]@.locks, owner@),
            decreases total - i,
        {
            let file = files.value_at(i);
            assert(files@[keys[i as int]] == *file);
            if holds_locks(&file.locks, owner) {
                assert(self@.contains_key(keys[i as int]));
                return true;
            }
            i += 1;
        }
        proof {
            assert forall|place: Seq<u8>| #[trigger] self@.contains_key(place) implies !owner_holds(
                self@[place].locks,
                owner@,
            ) by {
                assert(files@.contains_key(place));
                assert(keys.contains(place));
            }
        }
        false
    }
}

/// The locks at a place are those of an owner.
pub open spec fn owned_at(state: StateView, place: Seq<u8>, owner: (u64, Seq<u8>)) -> bool {
    state.lock_by_state.contains_key(place) && state.lock_by_state[place].owner.owner@ == owner
}

/// The places are those of the locks of an owner, each once.
pub open spec fn owned_places(state: StateView, places: Seq<Seq<u8>>, owner: (u64, Seq<u8>)) -> bool {
    &&& places.no_duplicates()
    &&& forall|place: Seq<u8>| #[trigger] places.contains(place) <==> owned_at(state, place, owner)
}

/// The registry once the lock states at the first `n` places have ended, as far as they live.
pub open spec fn lock_states_ended(state: StateView, places: Seq<Seq<u8>>, n: nat) -> (StateView, bool)
    decreases n,
{
    if n == 0 {
        (state, true)
    } else {
        let (before, ended) = lock_states_ended(state, places, (n - 1) as nat);
        if !ended {
            (before, false)
        } else {
            let link = before.lock_by_state[places[n - 1]];
            (
                StateView {
                    lock_by_state: before.lock_by_state.remove(places[n - 1]),
                    stateids: before.stateids.retired(link.state_id.other@, StateDisposition::Closed),
                    ..before
                },
                before.stateids.lives(link.state_id.other@),
            )
        }
    }
}

/// The registry once a lock owner is forgotten, with its locks in that order.
pub open spec fn owner_released(state: StateView, owner: OwnerKey, places: Seq<Seq<u8>>) -> StateView {
    let (after, ended) = lock_states_ended(state, places, places.len());
    if ended {
        StateView { lock_owners: after.lock_owners.remove(place_of_owner(owner)), ..after }
    } else {
        after
    }
}

/// Places that are not looked at stay.
proof fn lemma_places_stay(state: StateView, places: Seq<Seq<u8>>, n: nat)
    requires
        n <= places.len(),
        places.no_duplicates(),
        forall|i: int| 0 <= i < places.len() ==> state.lock_by_state.contains_key(#[trigger] places[i]),
    ensures
        lock_states_ended(state, places, n).1 ==> forall|i: int|
            n <= i < places.len() ==> lock_states_ended(state, places, n).0.lock_by_state.contains_key(
                #[trigger] places[i],
            ),
    decreases n,
{
    if n > 0 {
        lemma_places_stay(state, places, (n - 1) as nat);
    }
}

impl StateRegistry {
    /// The places of the locks of an owner, each once.
    fn find_owned(&self, owner: &OwnerKey) -> (places: Vec<Vec<u8>>)
        ensures
            owned_places(self@, place_views(places@), owner@),
    {
        let links = &self.lock_by_state;
        links.order_known();
        let ghost keys = links.keys();
        let total = links.len();
        let mut places: Vec<Vec<u8>> = Vec::new();
        let ghost mut at: Seq<int> = seq![];
        let mut i: usize = 0;
        while i < total
            invariant
                i <= total,
                total == keys.len(),
                keys == links.keys(),
                links@ == self@.lock_by_state,
                keys.len() == links.values().len(),
                keys.no_duplicates(),
                forall|j: int| 0 <= j < keys.len() ==> links@.contains_key(#[trigger] keys[j]),
                forall|j: int| 0 <= j < keys.len() ==> links@[#[trigger] keys[j]] == links.values()[j],
                at.len() == places@.len(),
                forall|p: int|
                    0 <= p < at.len() ==> 0 <= #[trigger] at[p] < i && places@[p]@ == keys[at[p]] && owned_at(
                        self@,
                        keys[at[p]],
                        owner@,
                    ),
                forall|p: int, q: int| 0 <= p < q < at.len() ==> #[trigger] at[p] < #[trigger] at[q],
                forall|j: int|
                    0 <= j < i && owned_at(self@, #[trigger] keys[j], owner@) ==> exists|p: int|
                        0 <= p < at.len() && #[trigger] at[p] == j,
            decreases total - i,
        {
            let link = links.value_at(i);
            assert(links@[keys[i as int]] == *link);
            let ghost had = at;
            if link.owner.owner.same(owner) {
                places.push(copy_bytes(links.key_at(i).as_slice()));
                proof {
                    at = at.push(i as int);
                }
            }
            proof {
                assert forall|j: int| 0 <= j < i + 1 && owned_at(self@, #[trigger] keys[j], owner@) implies exists|p: int|
                    0 <= p < at.len() && #[trigger] at[p] == j by {
                    if j < i {
                        let p = choose|p: int| 0 <= p < had.len() && #[trigger] had[p] == j;
                        assert(at[p] == j);
                    } else {
                        assert(at[at.len() - 1] == j);
                    }
                }
            }
            i += 1;
        }
        proof {
            let views = place_views(places@);
            assert forall|p: int, q: int| 0 <= p < views.len() && 0 <= q < views.len() && p != q implies views[p]
                != views[q] by {
                if p < q {
                    assert(at[p] < at[q]);
                } else {
                    assert(at[q] < at[p]);
                }
                assert(keys[at[p]] != keys[at[q]]);
            }
            assert forall|place: Seq<u8>| #[trigger] views.contains(place) <==> owned_at(self@, place, owner@) by {
                if views.contains(place) {
                    let p = choose|p: int| 0 <= p < views.len() && views[p] == place;
                    let j = at[p];
                    assert(views[p] == places@[p]@);
                    assert(places@[p]@ == keys[j]);
                    assert(owned_at(self@, keys[j], owner@));
                }
                if owned_at(self@, place, owner@) {
                    assert(keys.contains(place));
                    let j = choose|j: int| 0 <= j < keys.len() && keys[j] == place;
                    assert(owned_at(self@, keys[j], owner@));
                    let p = choose|p: int| 0 <= p < at.len() && #[trigger] at[p] == j;
                    assert(views[p] == places@[p]@);
                    assert(places@[p]@ == keys[j]);
                    assert(views[p] == place);
                }
            }
        }
        places
    }
}

impl Nfs4Runtime {
    /// Asks to forget a lock owner.
    pub fn prepare_release_lock_owner(&mut self, owner: &OwnerKey, principal: &Principal, now: u64) -> (told:
        ReleaseLockOwnerDecision)
        ensures
            told == release_told(old(self)@, *owner, principal@, now),
            final(self)@ == if owner.owner@.len() > old(self)@.limits.max_client_owner_size {
                old(self)@
            } else {
                renewed(old(self)@, owner.client_id, principal@, now)
            },
    {
        if owner.owner.len() > self.limits.max_client_owner_size {
            return ReleaseLockOwnerDecision::Error { status: NfsStatus::Resource, client_id: None };
        }
        if let Err(error) = self.clients.touch(owner.client_id, principal, NfsStatus::StaleClientId, now) {
            return ReleaseLockOwnerDecision::Error { status: error.status, client_id: error.client_id };
        }
        if self.files.owner_holds_any(owner) {
            return ReleaseLockOwnerDecision::Error {
                status: NfsStatus::LocksHeld,
                client_id: Some(owner.client_id),
            };
        }
        ReleaseLockOwnerDecision::Execute { client_id: owner.client_id }
    }

    /// What changes in the journal where a lock owner is forgotten; one that has locks is not.
    pub fn release_lock_owner_batch(&self, owner: &OwnerKey) -> (batch: Result<PersistBatch, NfsStatus>)
        ensures
            if holds_any(self@.files, owner@) {
                batch is Err && batch->Err_0 == NfsStatus::LocksHeld
            } else {
                batch is Ok && batch->Ok_0@ == seq![
                    ChangeView::Delete {
                        key: KeyView::Replay {
                            client_id: owner.client_id,
                            owner_kind: ReplayOwnerKind::Lock,
                            owner: owner.owner@,
                        },
                    },
                ]
            },
    {
        if self.files.owner_holds_any(owner) {
            return Err(NfsStatus::LocksHeld);
        }
        let batch = PersistBatch::default().delete(
            JournalKey::Replay {
                client_id: owner.client_id,
                owner_kind: ReplayOwnerKind::Lock,
                owner: copy_bytes(owner.owner.as_slice()),
            },
        );
        assert(batch@ =~= seq![
            ChangeView::Delete {
                key: KeyView::Replay {
                    client_id: owner.client_id,
                    owner_kind: ReplayOwnerKind::Lock,
                    owner: owner.owner@,
                },
            },
        ]);
        Ok(batch)
    }

    /// Forgets a lock owner once it was written to the journal, or could not be.
    pub fn finish_release_lock_owner(&mut self, owner: &OwnerKey, persisted: bool) -> (status: NfsStatus)
        ensures
            if !persisted {
                status == NfsStatus::Resource && final(self)@ == old(self)@
            } else {
                exists|places: Seq<Seq<u8>>| #[trigger]
                    owned_places(old(self)@.state, places, owner@) && final(self)@ == (RuntimeView {
                        state: owner_released(old(self)@.state, *owner, places),
                        ..old(self)@
                    }) && status == if lock_states_ended(old(self)@.state, places, places.len()).1 {
                        NfsStatus::Success
                    } else {
                        NfsStatus::ServerFault
                    }
            },
    {
        if !persisted {
            return NfsStatus::Resource;
        }
        let ghost before = self@;
        let places = self.state.find_owned(owner);
        let ghost views = place_views(places@);
        proof {
            assert forall|i: int| 0 <= i < views.len() implies before.state.lock_by_state.contains_key(
                #[trigger] views[i],
            ) by {
                assert(views.contains(views[i]));
            }
        }
        let mut i: usize = 0;
        while i < places.len()
            invariant
                persisted,
                i <= places@.len(),
                before == old(self)@,
                views == place_views(places@),
                owned_places(before.state, views, owner@),
                forall|j: int| 0 <= j < views.len() ==> before.state.lock_by_state.contains_key(#[trigger] views[j]),
                self@ == (RuntimeView { state: lock_states_ended(before.state, views, i as nat).0, ..before }),
                lock_states_ended(before.state, views, i as nat).1,
            decreases places@.len() - i,
        {
            proof {
                lemma_places_stay(before.state, views, i as nat);
                assert(views[i as int] == places@[i as int]@);
            }
            if let Some(link) = self.state.lock_by_state.remove(places[i].as_slice()) {
                let ended = self.state.stateids.set_disposition(link.state_id, StateDisposition::Closed);
                assert(self@.state =~= lock_states_ended(before.state, views, (i + 1) as nat).0);
                if !ended {
                    proof {
                        lemma_ended_stays(before.state, views, (i + 1) as nat, views.len());
                    }
                    return NfsStatus::ServerFault;
                }
            }
            i += 1;
        }
        let place = owner.place();
        let _ = self.state.lock_owners.remove(place.as_slice());
        NfsStatus::Success
    }
}

/// Once a lock state does not live any more, nothing more ends.
proof fn lemma_ended_stays(state: StateView, places: Seq<Seq<u8>>, m: nat, n: nat)
    requires
        m <= n,
        !lock_states_ended(state, places, m).1,
    ensures
        lock_states_ended(state, places, n) == lock_states_ended(state, places, m),
    decreases n,
{
    if m < n {
        lemma_ended_stays(state, places, m, (n - 1) as nat);
    }
}

} // verus!
