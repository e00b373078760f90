//! Opens that are closed.

use std::sync::Arc;

use vstd::prelude::*;

use crate::bytes::{array_equal, copy_bytes};
use crate::files::{filed, FileView};
use crate::journal::{ChangeView, PersistBatch};
use crate::locks::{has_open, locks_open};
use crate::owner::SequenceDecision;
use crate::protocol::{
    file_place, no_effect, owner_file_key, owner_file_place, share, state_token, token_of, NfsStatus, OwnerKey,
    ReplayEffect, ResOp, RuntimeFile, StateId,
};
use crate::record::{JournalKey, KeyView};
use crate::registry::{
    one_less, place_of_owner, place_views, replay_key_of, replay_record_of, LockLink, Owner, PendingPinRelease,
    ReleasedOpen, ReservedOwnerKind, StateRegistry, StateView,
};
use crate::runtime::openstate::{owner_error_begun, owner_error_state, valid_open, OpenStateReservation, OwnerErrorStep};
use crate::runtime::{next_number, number_after, Nfs4Runtime, RuntimeView};
use crate::share::{close_share, find_share, share_at, share_closed};
use crate::stateid::{map_stateid_error, stateid_status, StateDisposition, StateIdValidationError, StatePayload};

verus! {

impl StateView {
    /// The registry with one more file to be let go.
    pub open spec fn pin_queued(self, open: ReleasedOpen) -> StateView {
        StateView {
            pending_pin_releases: self.pending_pin_releases.push(
                PendingPinRelease { release_id: self.next_pin_release_id, open },
            ),
            next_pin_release_id: number_after(self.next_pin_release_id),
            ..self
        }
    }

    /// Some file that is to be let go has that number.
    pub open spec fn pin_pending(self, release_id: u64) -> bool {
        exists|i: int|
            0 <= i < self.pending_pin_releases.len() && (#[trigger] self.pending_pin_releases[i]).release_id
                == release_id
    }

    /// The registry once a lock owner has one state less.
    pub open spec fn lock_owner_shrunk(self, owner: OwnerKey) -> StateView {
        let place = place_of_owner(owner);
        if self.lock_owners.contains_key(place) {
            StateView {
                lock_owners: self.lock_owners.insert(
                    place,
                    Owner {
                        active_states: one_less(self.lock_owners[place].active_states),
                        ..self.lock_owners[place]
                    },
                ),
                ..self
            }
        } else {
            self
        }
    }

    /// The registry once the locks at a place end with their open.
    pub open spec fn link_closed(self, place: Seq<u8>) -> StateView {
        if self.lock_by_state.contains_key(place) {
            let link = self.lock_by_state[place];
            StateView {
                lock_by_state: self.lock_by_state.remove(place),
                stateids: self.stateids.retired(link.state_id.other@, StateDisposition::Closed),
                ..self
            }.lock_owner_shrunk(link.owner.owner)
        } else {
            self
        }
    }

    /// The registry once the locks at the first `n` places end with their open.
    pub open spec fn links_closed(self, places: Seq<Seq<u8>>, n: nat) -> StateView
        decreases n,
    {
        if n == 0 {
            self
        } else {
            self.links_closed(places, (n - 1) as nat).link_closed(places[n - 1])
        }
    }
}

/// Locks that end with their open change nothing but themselves and their owners.
pub proof fn lemma_links_closed(state: StateView, places: Seq<Seq<u8>>, n: nat)
    ensures
        state.links_closed(places, n) == (StateView {
            lock_by_state: state.links_closed(places, n).lock_by_state,
            stateids: state.links_closed(places, n).stateids,
            lock_owners: state.links_closed(places, n).lock_owners,
            ..state
        }),
    decreases n,
{
    if n > 0 {
        lemma_links_closed(state, places, (n - 1) as nat);
    }
}

/// The locks at a place are those of an open.
pub open spec fn derived(state: StateView, place: Seq<u8>, file: RuntimeFile, open: Seq<u8>) -> bool {
    state.lock_by_state.contains_key(place) && state.lock_by_state[place].file == file
        && state.lock_by_state[place].owner.open@ == open
}

/// The places are those of the locks of an open, each once.
pub open spec fn derived_places(state: StateView, places: Seq<Seq<u8>>, file: RuntimeFile, open: Seq<u8>) -> bool {
    &&& places.no_duplicates()
    &&& forall|place: Seq<u8>| #[trigger] places.contains(place) <==> derived(state, place, file, open)
}

/// What is wrong with the locks at a place.
pub open spec fn derived_fault(state: StateView, link: LockLink, open: Seq<u8>) -> Option<NfsStatus> {
    match state.stateids.identified(link.state_id.other@) {
        Err(error) => Some(stateid_status(error)),
        Ok(record) => {
            let place = place_of_owner(link.owner.owner);
            if !(record.payload is Lock) || record.file != link.file || record.payload->Lock_0.owner@
                != link.owner.owner@ || record.payload->Lock_0.open_state_id.other@ != open
                || !state.lock_owners.contains_key(place) || state.lock_owners[place].active_states == 0 {
                Some(NfsStatus::ServerFault)
            } else {
                None
            }
        },
    }
}

impl StateRegistry {
    /// The locks of an open, each checked.
    pub(crate) fn find_derived(&self, file: RuntimeFile, open: &[u8; 12]) -> (found: Result<Vec<Vec<u8>>, NfsStatus>)
        ensures
            match found {
                Ok(places) => {
                    &&& derived_places(self@, place_views(places@), file, open@)
                    &&& forall|place: Seq<u8>|
                        derived(self@, place, file, open@) ==> #[trigger] derived_fault(
                            self@,
                            self@.lock_by_state[place],
                            open@,
                        ) is None
                },
                Err(status) => exists|place: Seq<u8>| #[trigger]
                    derived(self@, place, file, open@) && derived_fault(self@, self@.lock_by_state[place], open@)
                        == Some(status),
            },
    {
        let links = &self.lock_by_state;
        links.order_known();
        let ghost keys = links.keys();
        let total = links.len();
        let mut places: Vec<Vec<u8>> = Vec::new();
        let ghost mut at: Seq<int> = seq![];
        let mut i: usize = 0;
        while i < total
            invariant
                i <= total,
                total == keys.len(),
                keys == links.keys(),
                links@ == self@.lock_by_state,
                keys.len() == links.values().len(),
                keys.no_duplicates(),
                forall|j: int| 0 <= j < keys.len() ==> links@.contains_key(#[trigger] keys[j]),
                forall|j: int| 0 <= j < keys.len() ==> links@[#[trigger] keys[j]] == links.values()[j],
                forall|j: int|
                    0 <= j < i && derived(self@, #[trigger] keys[j], file, open@) ==> derived_fault(
                        self@,
                        self@.lock_by_state[keys[j]],
                        open@,
                    ) is None,
                at.len() == places@.len(),
                forall|p: int|
                    0 <= p < at.len() ==> 0 <= #[trigger] at[p] < i && places@[p]@ == keys[at[p]] && derived(
                        self@,
                        keys[at[p]],
                        file,
                        open@,
                    ),
                forall|p: int, q: int| 0 <= p < q < at.len() ==> #[trigger] at[p] < #[trigger] at[q],
                forall|j: int|
                    0 <= j < i && derived(self@, #[trigger] keys[j], file, open@) ==> exists|p: int|
                        0 <= p < at.len() && #[trigger] at[p] == j,
            decreases total - i,
        {
            let link = links.value_at(i);
            assert(links@[keys[i as int]] == *link);
            let ghost had = at;
            if link.file == file && array_equal(&link.owner.open, open) {
                assert(derived(self@, keys[i as int], file, open@));
                match self.stateids.identify(link.state_id) {
                    Err(error) => {
                        return Err(map_stateid_error(error));
                    },
                    Ok(record) => {
                        let owner_place = link.owner.owner.place();
                        let idle = match self.lock_owners.get(owner_place.as_slice()) {
                            Some(owner) => owner.active_states == 0,
                            None => true,
                        };
                        let sound = match &record.payload {
                            StatePayload::Lock(held) => held.owner.same(&link.owner.owner) && array_equal(
                                &held.open_state_id.other,
                                open,
                            ),
                            StatePayload::Open(_) => false,
                        };
                        if record.file != link.file || !sound || idle {
                            return Err(NfsStatus::ServerFault);
                        }
                    },
                }
                places.push(copy_bytes(links.key_at(i).as_slice()));
                proof {
                    at = at.push(i as int);
                }
            }
            proof {
                assert forall|j: int| 0 <= j < i + 1 && derived(self@, #[trigger] keys[j], file, open@) implies exists|p: int|
                    0 <= p < at.len() && #[trigger] at[p] == j by {
                    if j < i {
                        let p = choose|p: int| 0 <= p < had.len() && #[trigger] had[p] == j;
                        assert(at[p] == j);
                    } else {
                        assert(at[at.len() - 1] == j);
                    }
                }
            }
            i += 1;
        }
        proof {
            let views = place_views(places@);
            assert forall|p: int, q: int| 0 <= p < views.len() && 0 <= q < views.len() && p != q implies views[p]
                != views[q] by {
                if p < q {
                    assert(at[p] < at[q]);
                } else {
                    assert(at[q] < at[p]);
                }
                assert(keys[at[p]] != keys[at[q]]);
            }
            assert forall|place: Seq<u8>| #[trigger] views.contains(place) <==> derived(self@, place, file, open@) by {
                if views.contains(place) {
                    let p = choose|p: int| 0 <= p < views.len() && views[p] == place;
                    let j = at[p];
                    assert(views[p] == places@[p]@);
                    assert(places@[p]@ == keys[j]);
                    assert(derived(self@, keys[j], file, open@));
                }
                if derived(self@, place, file, open@) {
                    assert(keys.contains(place));
                    let j = choose|j: int| 0 <= j < keys.len() && keys[j] == place;
                    assert(derived(self@, keys[j], file, open@));
                    let p = choose|p: int| 0 <= p < at.len() && #[trigger] at[p] == j;
                    assert(views[p] == places@[p]@);
                    assert(places@[p]@ == keys[j]);
                    assert(views[p] == place);
                }
            }
            assert forall|place: Seq<u8>| derived(self@, place, file, open@) implies #[trigger] derived_fault(
                self@,
                self@.lock_by_state[place],
                open@,
            ) is None by {
                assert(keys.contains(place));
                let j = choose|j: int| 0 <= j < keys.len() && keys[j] == place;
                assert(derived(self@, keys[j], file, open@));
            }
        }
        Ok(places)
    }

    /// Ends the locks at some places with their open.
    fn close_links(&mut self, places: &Vec<Vec<u8>>)
        ensures
            final(self)@ == old(self)@.links_closed(place_views(places@), places@.len()),
    {
        let ghost before = self@;
        let mut i: usize = 0;
        while i < places.len()
            invariant
                i <= places@.len(),
                self@ == before.links_closed(place_views(places@), i as nat),
            decreases places@.len() - i,
        {
            self.close_link(&places[i]);
            i += 1;
        }
    }

    /// Ends the locks at a place with their open.
    fn close_link(&mut self, place: &Vec<u8>)
        ensures
            final(self)@ == old(self)@.link_closed(place@),
    {
        let ghost before = self@;
        let link = match self.lock_by_state.remove(place.as_slice()) {
            Some(link) => link,
            None => {
                assert(self@ =~= before);
                return;
            },
        };
        let _ = self.stateids.set_disposition(link.state_id, StateDisposition::Closed);
        let owner_place = link.owner.owner.place();
        let found = match self.lock_owners.get(owner_place.as_slice()) {
            Some(owner) => Some(owner.copy()),
            None => None,
        };
        if let Some(owner) = found {
            let mut owner = owner;
            if owner.active_states > 0 {
                owner.active_states = owner.active_states - 1;
            }
            let _ = self.lock_owners.insert(owner_place, owner);
        }
        assert(self@ =~= before.link_closed(place@));
    }
}

/// The locks of an open are held, so that it is not closed.
pub open spec fn close_blocked(view: RuntimeView, reservation: OpenStateReservation) -> bool {
    view.files.contains_key(file_place(reservation.file)) && locks_open(
        view.files[file_place(reservation.file)].locks,
        reservation.state_id.other@,
    )
}

/// Why an open is not closed, before its locks are looked at.
pub open spec fn close_refused(view: RuntimeView, reservation: OpenStateReservation) -> Option<NfsStatus> {
    let state = view.state;
    let key = reservation.owner.owner;
    let link = owner_file_place(key@, reservation.file);
    let place = place_of_owner(key);
    match valid_open(state, reservation.state_id, reservation.file) {
        Err(status) => Some(status),
        Ok(open) => if open.owner@ != key@ || open.pin@ != reservation.pin@ || !state.open_by_owner_file.contains_key(
            link,
        ) || state.open_by_owner_file[link].state_id != reservation.state_id {
            Some(NfsStatus::ServerFault)
        } else if !state.open_owners.contains_key(place) || state.open_owners[place].active_states == 0
            || !(state.open_owners[place].sequence.decided(
            reservation.owner.sequence_id,
            reservation.owner.digest,
        ) is InProgress) {
            Some(NfsStatus::ServerFault)
        } else if state.pending_pin_releases.len() >= view.limits.max_state_objects {
            Some(NfsStatus::Resource)
        } else if !view.files.contains_key(file_place(reservation.file)) {
            Some(NfsStatus::ServerFault)
        } else {
            let file = view.files[file_place(reservation.file)];
            if locks_open(file.locks, reservation.state_id.other@) {
                Some(NfsStatus::LocksHeld)
            } else if share_at(file.shares, key@, file.shares.len()) is None {
                Some(NfsStatus::ServerFault)
            } else {
                None
            }
        },
    }
}

/// An open that can be closed and is not closed yet.
pub struct ClosePlan {
    pub reservation: OpenStateReservation,
    pub next: StateId,
    pub response: Arc<ResOp>,
    /// The places of the locks that end with the open.
    pub derived: Vec<Vec<u8>>,
}

/// The open can be closed as planned.
pub open spec fn close_ready(view: RuntimeView, plan: ClosePlan) -> bool {
    let r = plan.reservation;
    &&& r.owner.kind == ReservedOwnerKind::Open
    &&& close_refused(view, r) is None
    &&& view.state.stateids.previewed(r.state_id) == Ok::<StateId, StateIdValidationError>(plan.next)
    &&& *plan.response == ResOp::Close(Ok(plan.next))
    &&& derived_places(view.state, place_views(plan.derived@), r.file, r.state_id.other@)
    &&& forall|place: Seq<u8>|
        derived(view.state, place, r.file, r.state_id.other@) ==> #[trigger] derived_fault(
            view.state,
            view.state.lock_by_state[place],
            r.state_id.other@,
        ) is None
}

/// What an open that is closed changes in the journal.
pub open spec fn close_changes(plan: ClosePlan, reply: Seq<u8>) -> Seq<ChangeView> {
    seq![
        ChangeView::Delete { key: KeyView::Open { state_token: token_of(plan.reservation.state_id) } },
        ChangeView::Put {
            key: replay_key_of(plan.reservation.owner),
            record: replay_record_of(plan.reservation.owner, no_effect(), reply),
        },
    ]
}

impl ClosePlan {
    /// What the open that is closed changes in the journal, with the encoded reply.
    pub fn batch(&self, reply: &Vec<u8>) -> (batch: PersistBatch)
        ensures
            batch@ == close_changes(*self, reply@),
    {
        let batch = PersistBatch::default().delete(
            JournalKey::Open { state_token: state_token(self.reservation.state_id) },
        ).put(
            self.reservation.owner.replay_key(),
            self.reservation.owner.replay_record(ReplayEffect::default(), reply),
        );
        assert(batch@ =~= close_changes(*self, reply@));
        batch
    }
}

impl Nfs4Runtime {
    /// Begins to close an open; where its locks are held, the owner is refused.
    pub fn prepare_close(&mut self, reservation: OpenStateReservation) -> (prepared: Result<
        OpenStateReservation,
        OwnerErrorStep,
    >)
        ensures
            if close_blocked(old(self)@, reservation) {
                &&& prepared is Err
                &&& owner_error_begun(
                    prepared->Err_0,
                    reservation.owner,
                    NfsStatus::LocksHeld,
                    ResOp::Close(Err(NfsStatus::LocksHeld)),
                    no_effect(),
                )
                &&& final(self)@ == (RuntimeView {
                    state: owner_error_state(old(self)@.state, reservation.owner, NfsStatus::LocksHeld),
                    ..old(self)@
                })
            } else {
                prepared == Ok::<OpenStateReservation, OwnerErrorStep>(reservation) && final(self)@ == old(self)@
            },
    {
        let held = match self.files.get(reservation.file) {
            Some(file) => has_open(&file.locks, &reservation.state_id.other),
            None => false,
        };
        if held {
            let response = Arc::new(ResOp::Close(Err(NfsStatus::LocksHeld)));
            return Err(
                self.complete_owner_error(reservation.owner, NfsStatus::LocksHeld, response, ReplayEffect::default()),
            );
        }
        Ok(reservation)
    }

    /// Why an open is not closed, before its locks are looked at.
    pub(crate) fn refuse_close(&self, reservation: &OpenStateReservation) -> (refused: Option<NfsStatus>)
        ensures
            refused == close_refused(self@, *reservation),
    {
        let key = &reservation.owner.owner;
        let open = match self.state.find_valid_open(reservation.state_id, reservation.file) {
            Ok(open) => open,
            Err(status) => {
                return Some(status);
            },
        };
        let link = owner_file_key(key, reservation.file);
        let linked = match self.state.open_by_owner_file.get(link.as_slice()) {
            Some(found) => found.state_id.same(&reservation.state_id),
            None => false,
        };
        if !open.owner.same(key) || !array_equal(&open.pin, &reservation.pin) || !linked {
            return Some(NfsStatus::ServerFault);
        }
        let place = key.place();
        let running = match self.state.open_owners.get(place.as_slice()) {
            Some(owner) => {
                let decision = owner.sequence.decide(reservation.owner.sequence_id, reservation.owner.digest);
                let busy = matches!(decision, SequenceDecision::InProgress);
                owner.active_states != 0 && busy
            },
            None => false,
        };
        if !running {
            return Some(NfsStatus::ServerFault);
        }
        if self.state.pending_pin_releases.len() >= self.limits.max_state_objects {
            return Some(NfsStatus::Resource);
        }
        match self.files.get(reservation.file) {
            None => Some(NfsStatus::ServerFault),
            Some(file) => {
                if has_open(&file.locks, &reservation.state_id.other) {
                    Some(NfsStatus::LocksHeld)
                } else if find_share(&file.shares, key).is_none() {
                    Some(NfsStatus::ServerFault)
                } else {
                    None
                }
            },
        }
    }

    /// Plans to close an open.
    pub fn close_open(&mut self, reservation: OpenStateReservation) -> (plan: Result<ClosePlan, NfsStatus>)
        requires
            reservation.owner.kind == ReservedOwnerKind::Open,
        ensures
            match plan {
                Ok(plan) => plan.reservation == reservation && close_ready(old(self)@, plan) && final(self)@ == old(
                    self,
                )@,
                Err(status) => {
                    &&& final(self)@ == (RuntimeView {
                        state: old(self)@.state.dropped(reservation.owner),
                        ..old(self)@
                    })
                    &&& match close_refused(old(self)@, reservation) {
                        Some(refused) => status == refused,
                        None => exists|place: Seq<u8>| #[trigger]
                            derived(old(self)@.state, place, reservation.file, reservation.state_id.other@)
                                && derived_fault(
                                old(self)@.state,
                                old(self)@.state.lock_by_state[place],
                                reservation.state_id.other@,
                            ) == Some(status),
                    }
                },
            },
    {
        if let Some(status) = self.refuse_close(&reservation) {
            self.state.drop_reservation(reservation.owner);
            return Err(status);
        }
        let places = match self.state.find_derived(reservation.file, &reservation.state_id.other) {
            Ok(places) => places,
            Err(status) => {
                self.state.drop_reservation(reservation.owner);
                return Err(status);
            },
        };
        match self.state.stateids.preview_transition(reservation.state_id) {
            Ok(next) => Ok(
                ClosePlan { reservation, next, response: Arc::new(ResOp::Close(Ok(next))), derived: places },
            ),
            Err(error) => {
                assert(false);
                Err(map_stateid_error(error))
            },
        }
    }
}

/// The registry once an open is closed.
pub open spec fn closed_state(state: StateView, plan: ClosePlan) -> StateView {
    let r = plan.reservation;
    let key = r.owner.owner;
    let place = place_of_owner(key);
    let ended = StateView {
        stateids: state.stateids.transitioned(r.state_id).retired(plan.next.other@, StateDisposition::Closed),
        open_by_owner_file: state.open_by_owner_file.remove(owner_file_place(key@, r.file)),
        ..state
    }.links_closed(place_views(plan.derived@), plan.derived@.len());
    StateView {
        reclaimed_open_ancestry: ended.reclaimed_open_ancestry.remove(r.state_id.other@),
        open_owners: if ended.open_owners.contains_key(place) {
            ended.open_owners.insert(
                place,
                Owner {
                    active_states: one_less(ended.open_owners[place].active_states),
                    ..ended.open_owners[place]
                },
            )
        } else {
            ended.open_owners
        },
        ..ended
    }.settled(r.owner, plan.response, no_effect()).pin_queued(
        ReleasedOpen { client_id: key.client_id, file: r.file, pin: r.pin },
    )
}

/// The server once an open is closed, or could not be.
pub open spec fn close_finished(view: RuntimeView, plan: ClosePlan, persisted: bool) -> RuntimeView {
    let r = plan.reservation;
    let place = file_place(r.file);
    if !persisted {
        RuntimeView { state: view.state.dropped(r.owner), ..view }
    } else {
        RuntimeView {
            state: closed_state(view.state, plan),
            files: filed(
                view.files,
                r.file,
                FileView { shares: share_closed(view.files[place].shares, r.owner.owner@), ..view.files[place] },
            ),
            ..view
        }
    }
}

impl Nfs4Runtime {
    /// Finishes to close an open once it was written to the journal, or could not be.
    pub fn finish_close(&mut self, plan: ClosePlan, persisted: bool) -> (result: Result<Arc<ResOp>, NfsStatus>)
        requires
            persisted ==> close_ready(old(self)@, plan),
            persisted ==> !old(self)@.state.pin_pending(old(self)@.state.next_pin_release_id),
        ensures
            result == if persisted {
                Ok::<Arc<ResOp>, NfsStatus>(plan.response)
            } else {
                Err::<Arc<ResOp>, NfsStatus>(NfsStatus::Resource)
            },
            final(self)@ == close_finished(old(self)@, plan, persisted),
    {
        let ghost before = self@;
        if !persisted {
            self.state.drop_reservation(plan.reservation.owner);
            return Err(NfsStatus::Resource);
        }
        let key = plan.reservation.owner.owner.copy();
        let released = ReleasedOpen {
            client_id: key.client_id,
            file: plan.reservation.file,
            pin: plan.reservation.pin,
        };
        let mut file = self.files.take(plan.reservation.file);
        let _ = close_share(&mut file.shares, &key);
        if !file.is_empty() {
            self.files.put(plan.reservation.file, file);
        }
        assert(self@.files =~= close_finished(before, plan, persisted).files);
        let _ = self.state.stateids.transition(plan.reservation.state_id);
        let _ = self.state.stateids.set_disposition(plan.next, StateDisposition::Closed);
        let link = owner_file_key(&key, plan.reservation.file);
        let _ = self.state.open_by_owner_file.remove(link.as_slice());
        let ghost ended = self@.state;
        self.state.close_links(&plan.derived);
        proof {
            lemma_links_closed(ended, place_views(plan.derived@), plan.derived@.len());
        }
        let _ = self.state.reclaimed_open_ancestry.remove(plan.reservation.state_id.other.as_slice());
        let place = key.place();
        let found = match self.state.open_owners.get(place.as_slice()) {
            Some(owner) => Some(owner.copy()),
            None => None,
        };
        if let Some(owner) = found {
            let mut owner = owner;
            if owner.active_states > 0 {
                owner.active_states = owner.active_states - 1;
            }
            let _ = self.state.open_owners.insert(place, owner);
        }
        let _ = self.state.settle_reservation(
            plan.reservation.owner,
            share(&plan.response),
            ReplayEffect::default(),
        );
        self.state.queue_pin_release(released);
        assert(self@.state =~= closed_state(before.state, plan));
        Ok(plan.response)
    }

    /// Gives up to close an open whose reply could not be encoded.
    pub fn abandon_close(&mut self, plan: ClosePlan) -> (status: NfsStatus)
        ensures
            status == NfsStatus::ServerFault,
            final(self)@ == close_finished(old(self)@, plan, false),
    {
        self.state.drop_reservation(plan.reservation.owner);
        NfsStatus::ServerFault
    }
}

impl StateRegistry {
    /// Takes note of a file that is to be let go.
    pub fn queue_pin_release(&mut self, open: ReleasedOpen)
        requires
            !old(self)@.pin_pending(old(self)@.next_pin_release_id),
        ensures
            final(self)@ == old(self)@.pin_queued(open),
    {
        let release_id = self.next_pin_release_id;
        self.next_pin_release_id = next_number(release_id);
        self.pending_pin_releases.push(PendingPinRelease { release_id, open });
    }

    /// The files that are to be let go.
    pub fn list_pin_releases(&self) -> (releases: Vec<PendingPinRelease>)
        ensures
            releases@ == self@.pending_pin_releases,
    {
        let mut releases: Vec<PendingPinRelease> = Vec::new();
        let mut i: usize = 0;
        while i < self.pending_pin_releases.len()
            invariant
                i <= self.pending_pin_releases@.len(),
                releases@ == self.pending_pin_releases@.take(i as int),
            decreases self.pending_pin_releases@.len() - i,
        {
            releases.push(self.pending_pin_releases[i]);
            assert(releases@ =~= self.pending_pin_releases@.take(i + 1));
            i += 1;
        }
        assert(releases@ =~= self.pending_pin_releases@);
        releases
    }
}

/// The first `n` files to be let go but for one.
pub open spec fn pins_without(list: Seq<PendingPinRelease>, release_id: u64, n: nat) -> Seq<PendingPinRelease>
    decreases n,
{
    if n == 0 {
        seq![]
    } else if list[n - 1].release_id == release_id {
        pins_without(list, release_id, (n - 1) as nat)
    } else {
        pins_without(list, release_id, (n - 1) as nat).push(list[n - 1])
    }
}

impl Nfs4Runtime {
    /// The files that are to be let go. They stay on the list until each is acknowledged.
    pub fn pending_pin_releases(&self) -> (releases: Vec<PendingPinRelease>)
        ensures
            releases@ == self@.state.pending_pin_releases,
    {
        self.state.list_pin_releases()
    }

    /// Takes note that a file was let go.
    pub fn acknowledge_pin_release(&mut self, release_id: u64) -> (known: bool)
        ensures
            known == old(self)@.state.pin_pending(release_id),
            final(self)@ == (RuntimeView {
                state: StateView {
                    pending_pin_releases: pins_without(
                        old(self)@.state.pending_pin_releases,
                        release_id,
                        old(self)@.state.pending_pin_releases.len(),
                    ),
                    ..old(self)@.state
                },
                ..old(self)@
            }),
    {
        let ghost before = self@;
        let mut left: Vec<PendingPinRelease> = Vec::new();
        let mut known = false;
        let mut i: usize = 0;
        while i < self.state.pending_pin_releases.len()
            invariant
                i <= self.state.pending_pin_releases@.len(),
                self@ == before,
                left@ == pins_without(before.state.pending_pin_releases, release_id, i as nat),
                known == exists|j: int|
                    0 <= j < i && (#[trigger] before.state.pending_pin_releases[j]).release_id == release_id,
            decreases self.state.pending_pin_releases@.len() - i,
        {
            assert(before.state.pending_pin_releases[i as int] == self.state.pending_pin_releases@[i as int]);
            if self.state.pending_pin_releases[i].release_id == release_id {
                known = true;
            } else {
                left.push(self.state.pending_pin_releases[i]);
            }
            i += 1;
        }
        self.state.pending_pin_releases = left;
        known
    }
}

} // verus!
