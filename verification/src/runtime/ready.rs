//! Whether what was planned can still be done.

use vstd::prelude::*;

use crate::bytes::bytes_equal;
use crate::protocol::{owner_file_key, ResOp, RuntimeFile};
use crate::registry::{place_views, OwnerReservation, ReservedOwnerKind, StateRegistry};
use crate::runtime::close::{close_ready, derived, derived_fault, derived_places, ClosePlan};
use crate::runtime::complete::{open_ready, OpenPlan};
use crate::runtime::revoke::{pins_queued, revocable, states_of};
use crate::runtime::{next_number, Nfs4Runtime};
use crate::stateid::{active_views, StatePayload};

verus! {

impl StateRegistry {
    /// Whether some file that is to be let go has that number.
    pub fn is_pin_pending(&self, release_id: u64) -> (pending: bool)
        ensures
            pending == self@.pin_pending(release_id),
    {
        let list = &self.pending_pin_releases;
        let mut i: usize = 0;
        while i < list.len()
            invariant
                i <= list@.len(),
                list@ == self@.pending_pin_releases,
                forall|j: int| 0 <= j < i ==> (#[trigger] list@[j]).release_id != release_id,
            decreases list@.len() - i,
        {
            if list[i].release_id == release_id {
                assert(self@.pending_pin_releases[i as int].release_id == release_id);
                return true;
            }
            i += 1;
        }
        false
    }

    /// Whether the request is the one that its owner waits for.
    pub fn is_awaited(&self, reservation: &OwnerReservation) -> (awaited: bool)
        ensures
            awaited == self@.awaits(*reservation),
    {
        let place = reservation.owner.place();
        let owners = match reservation.kind {
            ReservedOwnerKind::Open => &self.open_owners,
            ReservedOwnerKind::Lock => &self.lock_owners,
        };
        match owners.get(place.as_slice()) {
            Some(owner) => match &owner.sequence.pending {
                Some(pending) => pending.sequence_id == reservation.sequence_id && pending.digest.same(
                    &reservation.digest,
                ),
                None => false,
            },
            None => false,
        }
    }

    /// Whether the places are those of the locks of an open, each once, and nothing is wrong with any of them.
    fn check_derived(&self, places: &Vec<Vec<u8>>, file: RuntimeFile, open: &[u8; 12]) -> (sound: bool)
        ensures
            sound == (derived_places(self@, place_views(places@), file, open@) && forall|place: Seq<u8>|
                derived(self@, place, file, open@) ==> #[trigger] derived_fault(
                    self@,
                    self@.lock_by_state[place],
                    open@,
                ) is None),
    {
        let found = match self.find_derived(file, open) {
            Ok(found) => found,
            Err(_) => {
                return false;
            },
        };
        let ghost given = place_views(places@);
        let ghost known = place_views(found@);
        proof {
            given.lemma_cardinality_of_set();
            known.unique_seq_to_set();
            if derived_places(self@, given, file, open@) {
                given.unique_seq_to_set();
                assert(given.to_set() =~= known.to_set()) by {
                    assert forall|place: Seq<u8>| given.contains(place) == known.contains(place) by {
                        assert(given.contains(place) <==> derived(self@, place, file, open@));
                        assert(known.contains(place) <==> derived(self@, place, file, open@));
                    }
                }
            }
        }
        if places.len() != found.len() {
            return false;
        }
        let mut i: usize = 0;
        while i < found.len()
            invariant
                i <= found@.len(),
                given == place_views(places@),
                known == place_views(found@),
                derived_places(self@, known, file, open@),
                forall|j: int| 0 <= j < i ==> given.contains(#[trigger] known[j]),
            decreases found@.len() - i,
        {
            if !has_place(places, &found[i]) {
                proof {
                    assert(known[i as int] == found@[i as int]@);
                    assert(known.contains(known[i as int]));
                    assert(derived(self@, known[i as int], file, open@));
                    assert(!given.contains(known[i as int]));
                }
                return false;
            }
            i += 1;
        }
        proof {
            assert(known.to_set().subset_of(given.to_set())) by {
                assert forall|place: Seq<u8>| known.contains(place) implies given.contains(place) by {
                    let j = known.index_of(place);
                    assert(known[j] == place);
                }
            }
            vstd::set_lib::lemma_len_subset(known.to_set(), given.to_set());
            vstd::set_lib::lemma_subset_equality(known.to_set(), given.to_set());
            given.lemma_no_dup_set_cardinality();
            assert forall|place: Seq<u8>| #[trigger] given.contains(place) <==> derived(self@, place, file, open@) by {
                assert(given.to_set().contains(place) == known.to_set().contains(place));
                assert(known.contains(place) <==> derived(self@, place, file, open@));
            }
        }
        true
    }
}

/// Whether a place is in a list.
fn has_place(places: &Vec<Vec<u8>>, place: &Vec<u8>) -> (found: bool)
    ensures
        found == place_views(places@).contains(place@),
{
    let ghost views = place_views(places@);
    let mut i: usize = 0;
    while i < places.len()
        invariant
            i <= places@.len(),
            views == place_views(places@),
            forall|j: int| 0 <= j < i ==> #[trigger] views[j] != place@,
        decreases places@.len() - i,
    {
        assert(views[i as int] == places@[i as int]@);
        if bytes_equal(places[i].as_slice(), place.as_slice()) {
            assert(views.contains(place@));
            return true;
        }
        i += 1;
    }
    false
}

impl Nfs4Runtime {
    /// Whether an open can be completed as planned.
    pub fn can_finish_open(&self, plan: &OpenPlan) -> (ready: bool)
        ensures
            ready == open_ready(self@, *plan),
    {
        if self.refuse_ready(plan).is_some() || plan.target.owner.kind != ReservedOwnerKind::Open {
            return false;
        }
        match plan.target.existing_state {
            Some(previous) => match self.state.stateids.identify(previous) {
                Ok(record) => match record.payload {
                    StatePayload::Open(_) => true,
                    StatePayload::Lock(_) => false,
                },
                Err(_) => false,
            },
            None => {
                let link = owner_file_key(&plan.target.owner.owner, plan.target.file);
                self.state.stateids.is_waiting(plan.state_id) && !self.state.open_by_owner_file.contains(
                    link.as_slice(),
                )
            },
        }
    }

    /// Whether an open can be closed as planned, and its file put on the list of those to be let go.
    pub fn can_finish_close(&self, plan: &ClosePlan) -> (ready: bool)
        ensures
            ready == (close_ready(self@, *plan) && !self@.state.pin_pending(self@.state.next_pin_release_id)),
    {
        let r = &plan.reservation;
        if r.owner.kind != ReservedOwnerKind::Open || self.refuse_close(r).is_some() {
            return false;
        }
        match self.state.stateids.preview_transition(r.state_id) {
            Ok(next) => if !next.same(&plan.next) {
                return false;
            },
            Err(_) => {
                return false;
            },
        }
        let answered = match &*plan.response {
            ResOp::Close(Ok(next)) => next.same(&plan.next),
            _ => false,
        };
        answered && self.state.check_derived(&plan.derived, r.file, &r.state_id.other) && !self.state.is_pin_pending(
            self.state.next_pin_release_id,
        )
    }

    /// Whether the state of a client can end: the files of its opens find room on the list of those to be let go.
    pub fn can_revoke(&self, client: u64) -> (ready: bool)
        ensures
            ready == revocable(self@.state, client),
    {
        let ghost state = self@.state;
        let states = self.state.stateids.active_records_for_client(client);
        let ghost views = states_of(state, client);
        let count = self.state.stateids.len();
        let capacity = self.state.stateids.capacity;
        if count > capacity || self.state.pending_pin_releases.len() > capacity - count {
            return false;
        }
        let mut numbers: Vec<u64> = Vec::new();
        let mut next = self.state.next_pin_release_id;
        let mut i: usize = 0;
        while i < states.len()
            invariant
                i <= states@.len(),
                active_views(states@) == views,
                views == states_of(state, client),
                state == self@.state,
                next == pins_queued(state, views, client, i as nat).next_pin_release_id,
                pins_queued(state, views, client, i as nat).pending_pin_releases.len()
                    == state.pending_pin_releases.len() + numbers@.len(),
                forall|k: int|
                    0 <= k < state.pending_pin_releases.len() ==> #[trigger] pins_queued(
                        state,
                        views,
                        client,
                        i as nat,
                    ).pending_pin_releases[k] == state.pending_pin_releases[k],
                forall|k: int|
                    0 <= k < numbers@.len() ==> #[trigger] numbers@[k] == pins_queued(
                        state,
                        views,
                        client,
                        i as nat,
                    ).pending_pin_releases[state.pending_pin_releases.len() + k].release_id,
                forall|k: nat|
                    k < i && views[k as int].payload is Open ==> !(#[trigger] pins_queued(state, views, client, k)).pin_pending(
                        pins_queued(state, views, client, k).next_pin_release_id,
                    ),
            decreases states@.len() - i,
        {
            let ghost queued = pins_queued(state, views, client, i as nat);
            assert(views[i as int] == states@[i as int]@);
            let used = self.state.is_pin_pending(next) || has_number(&numbers, next);
            proof {
                let old_len = state.pending_pin_releases.len();
                if state.pin_pending(next) {
                    let k = choose|k: int|
                        0 <= k < old_len && (#[trigger] state.pending_pin_releases[k]).release_id == next;
                    assert(queued.pending_pin_releases[k] == state.pending_pin_releases[k]);
                    assert(queued.pin_pending(next));
                }
                if numbers@.contains(next) {
                    let k = numbers@.index_of(next);
                    assert(numbers@[k] == next);
                    assert(queued.pending_pin_releases[old_len + k].release_id == next);
                    assert(queued.pin_pending(next));
                }
                if queued.pin_pending(next) {
                    let k = choose|k: int|
                        0 <= k < queued.pending_pin_releases.len() && (
                        #[trigger] queued.pending_pin_releases[k]).release_id == next;
                    if k < old_len {
                        assert(queued.pending_pin_releases[k] == state.pending_pin_releases[k]);
                        assert(state.pin_pending(next));
                    } else {
                        assert(numbers@[k - old_len] == next);
                        assert(numbers@.contains(next));
                    }
                }
                assert(used == queued.pin_pending(next));
            }
            if let StatePayload::Open(_) = &states[i].payload {
                if used {
                    return false;
                }
                numbers.push(next);
                next = next_number(next);
            }
            i += 1;
        }
        true
    }
}

/// Whether a number is in a list.
fn has_number(numbers: &Vec<u64>, number: u64) -> (found: bool)
    ensures
        found == numbers@.contains(number),
{
    let mut i: usize = 0;
    while i < numbers.len()
        invariant
            i <= numbers@.len(),
            forall|j: int| 0 <= j < i ==> #[trigger] numbers@[j] != number,
        decreases numbers@.len() - i,
    {
        if numbers[i] == number {
            assert(numbers@.contains(number));
            return true;
        }
        i += 1;
    }
    false
}

} // verus!
