//! There are never more states than there may be, and there is always room for the files that are to be let go.

use vstd::prelude::*;

use crate::protocol::{RuntimeFile, StateId};
use crate::recovery::RecoveredOpen;
use crate::registry::{OwnerReservation, PendingPinRelease, StateView};
use crate::runtime::close::{close_finished, close_ready, lemma_links_closed, pins_without, ClosePlan};
use crate::runtime::complete::{open_finished, open_planned, open_ready, OpenPlan};
use crate::runtime::lock::{lock_finish_state, new_lock_judged, LockPlan, LockVerdict, LockWish, OpenToLockOwner};
use crate::runtime::open::{open_begun, target_reserved, OpenRequest, OpenReservation, OpenTargetReservation};
use crate::runtime::openstate::{change_finished, OpenChangePlan};
use crate::runtime::revoke::{lemma_pins_queued, pins_queued, revoked_state, states_of};
use crate::runtime::unlock::{unlock_finish_state, UnlockPlan};
use crate::runtime::RuntimeView;
use crate::share::ShareReservation;
use crate::stateid::{
    client_retired, client_states, lemma_reusable, slot_client, taken, ActiveView, Slot, SlotState, StateDisposition,
    StatePayload, StateRecord, TableView,
};

verus! {

/// The states that are there or promised and the files that are to be let go are no more than there may be states. A
/// new lock that is planned is both there and promised: there are `planned` of them.
pub open spec fn bounded(state: StateView, planned: nat) -> bool {
    &&& planned <= state.reserved_states
    &&& state.stateids.count() + state.reserved_states + state.pending_pin_releases.len() <= state.stateids.capacity
        + planned
}

/// Whether a slot is taken, as a number.
spec fn weight(slot: Slot) -> nat {
    if slot.state is Retired {
        0
    } else {
        1
    }
}

/// One slot changes what is taken by itself only.
proof fn lemma_taken_update(slots: Seq<Slot>, i: int, slot: Slot, n: nat)
    requires
        0 <= i < slots.len(),
        n <= slots.len(),
    ensures
        taken(slots.update(i, slot), n) == if i < n {
            taken(slots, n) - weight(slots[i]) + weight(slot)
        } else {
            taken(slots, n) as int
        },
    decreases n,
{
    if n > 0 {
        lemma_taken_update(slots, i, slot, (n - 1) as nat);
    }
}

/// What is taken among the first slots does not depend on the others.
proof fn lemma_taken_push(slots: Seq<Slot>, slot: Slot, n: nat)
    requires
        n <= slots.len(),
    ensures
        taken(slots.push(slot), n) == taken(slots, n),
    decreases n,
{
    if n > 0 {
        lemma_taken_push(slots, slot, (n - 1) as nat);
        assert(slots.push(slot)[n - 1] == slots[n - 1]);
    }
}

/// A new state object is one more.
proof fn lemma_count_allocated(table: TableView, client: u64, file: RuntimeFile, payload: StatePayload)
    requires
        table.room() is Some,
    ensures
        table.allocated(client, file, payload).count() == table.count() + 1,
        table.allocated(client, file, payload).capacity == table.capacity,
{
    lemma_reusable(table.slots, table.slots.len());
    let (i, generation) = table.room()->0;
    let slot = Slot {
        generation,
        state: SlotState::Pending(StateRecord { sequence_id: 1, client, file, payload }),
    };
    if i < table.slots.len() {
        lemma_taken_update(table.slots, i, slot, table.slots.len());
    } else {
        lemma_taken_push(table.slots, slot, table.slots.len());
    }
}

/// A state object that ends is one less, where it lives.
proof fn lemma_count_retired(table: TableView, other: Seq<u8>, disposition: StateDisposition)
    ensures
        table.retired(other, disposition).count() == if table.lives(other) {
            table.count() - 1
        } else {
            table.count() as int
        },
        table.retired(other, disposition).capacity == table.capacity,
{
    if table.slot_of(other) is Ok {
        let i = table.slot_of(other)->Ok_0;
        if !(table.slots[i].state is Retired) {
            lemma_taken_update(
                table.slots,
                i,
                Slot { generation: table.slots[i].generation, state: SlotState::Retired(disposition) },
                table.slots.len(),
            );
        }
    }
}

/// Another record behind a living identity changes no count.
proof fn lemma_count_replaced(table: TableView, other: Seq<u8>, record: StateRecord)
    requires
        table.lives(other),
    ensures
        table.replaced(other, record).count() == table.count(),
        table.replaced(other, record).capacity == table.capacity,
        table.replaced(other, record).lives(other),
{
    let i = table.slot_of(other)->Ok_0;
    lemma_taken_update(
        table.slots,
        i,
        Slot { generation: table.slots[i].generation, state: SlotState::Active(record) },
        table.slots.len(),
    );
}

/// The next state id of a state object changes no count.
proof fn lemma_count_transitioned(table: TableView, state_id: StateId)
    requires
        table.previewed(state_id) is Ok,
    ensures
        table.transitioned(state_id).count() == table.count(),
        table.transitioned(state_id).capacity == table.capacity,
        table.transitioned(state_id).lives(state_id.other@),
{
    let record = table.identified(state_id.other@)->Ok_0;
    lemma_count_replaced(
        table,
        state_id.other@,
        StateRecord { sequence_id: crate::stateid::stateid_after(record.sequence_id), ..record },
    );
}

/// A state object that was about to live changes no count.
proof fn lemma_count_activated(table: TableView, other: Seq<u8>)
    ensures
        table.activated(other).count() == table.count(),
        table.activated(other).capacity == table.capacity,
{
    if table.waits(other) {
        let i = table.slot_of(other)->Ok_0;
        lemma_taken_update(
            table.slots,
            i,
            Slot {
                generation: table.slots[i].generation,
                state: SlotState::Active(table.slots[i].state->Pending_0),
            },
            table.slots.len(),
        );
    }
}

/// How many of the first `n` slots a client has.
spec fn slots_of(slots: Seq<Slot>, client: u64, n: nat) -> nat
    decreases n,
{
    if n == 0 {
        0
    } else {
        slots_of(slots, client, (n - 1) as nat) + if slot_client(slots[n - 1]) == Some(client) {
            1nat
        } else {
            0nat
        }
    }
}

/// A client that ends leaves all its slots, and has no fewer slots than living states.
proof fn lemma_client_slots(boot_tag: u32, slots: Seq<Slot>, client: u64, disposition: StateDisposition, n: nat)
    requires
        n <= slots.len(),
    ensures
        client_retired(slots, client, disposition, n).len() == n,
        taken(client_retired(slots, client, disposition, n), n) + slots_of(slots, client, n) == taken(slots, n),
        client_states(boot_tag, slots, client, n).len() <= slots_of(slots, client, n),
    decreases n,
{
    if n > 0 {
        lemma_client_slots(boot_tag, slots, client, disposition, (n - 1) as nat);
        let before = client_retired(slots, client, disposition, (n - 1) as nat);
        let after = client_retired(slots, client, disposition, n);
        lemma_taken_push(before, after[n - 1], (n - 1) as nat);
        assert(after =~= before.push(after[n - 1]));
    }
}

/// No more files are to be let go than there are states.
proof fn lemma_pins_counted(state: StateView, states: Seq<ActiveView>, client: u64, n: nat)
    requires
        n <= states.len(),
    ensures
        pins_queued(state, states, client, n).pending_pin_releases.len() <= state.pending_pin_releases.len() + n,
    decreases n,
{
    if n > 0 {
        lemma_pins_counted(state, states, client, (n - 1) as nat);
    }
}

/// In bounded state, the files of every client's opens find room on the list of those to be let go.
pub proof fn lemma_bounded_room(state: StateView, planned: nat)
    requires
        bounded(state, planned),
    ensures
        state.stateids.count() + state.pending_pin_releases.len() <= state.stateids.capacity,
{
}

/// An open that is begun where there is room keeps the bound.
pub proof fn lemma_begin_open_bounded(state: StateView, request: OpenRequest, planned: nat)
    requires
        bounded(state, planned),
        !state.full(),
    ensures
        bounded(open_begun(state, request), planned),
        open_begun(state, request).reserved_states > planned,
{
}

/// A request that gives its place in its owner's sequence back keeps the bound.
pub proof fn lemma_dropped_bounded(state: StateView, reservation: OwnerReservation, planned: nat)
    requires
        bounded(state, planned),
        reservation.reserved_state ==> planned < state.reserved_states,
    ensures
        bounded(state.dropped(reservation), planned),
{
}

/// A request that is answered keeps the bound.
pub proof fn lemma_settled_bounded(
    state: StateView,
    reservation: OwnerReservation,
    reply: std::sync::Arc<crate::protocol::ResOp>,
    effect: crate::protocol::ReplayEffect,
    planned: nat,
)
    requires
        bounded(state, planned),
        reservation.reserved_state ==> planned < state.reserved_states,
    ensures
        bounded(state.settled(reservation, reply, effect), planned),
{
}

/// An open that has its target keeps the bound.
pub proof fn lemma_target_bounded(
    view: RuntimeView,
    reservation: OpenReservation,
    file: RuntimeFile,
    recovered: Option<RecoveredOpen>,
    combined: ShareReservation,
    planned: nat,
)
    requires
        bounded(view.state, planned),
        planned < view.state.reserved_states,
    ensures
        bounded(target_reserved(view, reservation, file, recovered, combined).state, planned),
{
}

/// An open that is planned takes the room that was promised to it.
pub proof fn lemma_open_planned_bounded(
    state: StateView,
    target: OpenTargetReservation,
    confirmation_required: bool,
    planned: nat,
)
    requires
        bounded(state, planned),
        target.existing_state is None ==> state.stateids.room() is Some && planned < state.reserved_states,
    ensures
        bounded(open_planned(state, target, confirmation_required), planned),
{
    if target.existing_state is None {
        lemma_count_allocated(
            state.stateids,
            target.owner.owner.client_id,
            target.file,
            crate::runtime::complete::new_open(target, confirmation_required),
        );
    }
}

/// An open that is completed, or could not be, keeps the bound.
pub proof fn lemma_open_bounded(view: RuntimeView, plan: OpenPlan, persisted: bool, planned: nat)
    requires
        bounded(view.state, planned),
        !plan.target.owner.reserved_state,
        persisted ==> open_ready(view, plan),
    ensures
        bounded(open_finished(view, plan, persisted).state, planned),
{
    let table = view.state.stateids;
    if persisted {
        match plan.target.existing_state {
            Some(previous) => {
                lemma_count_transitioned(table, previous);
                let moved = table.transitioned(previous);
                assert(previous.other@ == plan.state_id.other@);
                lemma_count_replaced(
                    moved,
                    plan.state_id.other@,
                    StateRecord {
                        payload: StatePayload::Open(
                            crate::stateid::OpenState {
                                access: plan.target.access,
                                deny: plan.target.deny,
                                contributions: plan.target.contributions,
                                ..moved.identified(plan.state_id.other@)->Ok_0.payload->Open_0
                            },
                        ),
                        ..moved.identified(plan.state_id.other@)->Ok_0
                    },
                );
            },
            None => {
                lemma_count_activated(table, plan.state_id.other@);
            },
        }
    } else if plan.target.existing_state is None {
        lemma_count_retired(table, plan.state_id.other@, StateDisposition::Closed);
    }
}

/// Locks that end with their open leave no more states.
proof fn lemma_links_counted(state: StateView, places: Seq<Seq<u8>>, n: nat)
    ensures
        state.links_closed(places, n).stateids.count() <= state.stateids.count(),
        state.links_closed(places, n).stateids.capacity == state.stateids.capacity,
    decreases n,
{
    if n > 0 {
        lemma_links_counted(state, places, (n - 1) as nat);
        let before = state.links_closed(places, (n - 1) as nat);
        if before.lock_by_state.contains_key(places[n - 1]) {
            lemma_count_retired(
                before.stateids,
                before.lock_by_state[places[n - 1]].state_id.other@,
                StateDisposition::Closed,
            );
        }
    }
}

/// An open that is closed leaves the room that it had to the file that is to be let go.
pub proof fn lemma_close_bounded(view: RuntimeView, plan: ClosePlan, persisted: bool, planned: nat)
    requires
        bounded(view.state, planned),
        !plan.reservation.owner.reserved_state,
        persisted ==> close_ready(view, plan),
    ensures
        bounded(close_finished(view, plan, persisted).state, planned),
{
    if persisted {
        let r = plan.reservation;
        let state = view.state;
        let table = state.stateids;
        lemma_count_transitioned(table, r.state_id);
        lemma_count_retired(table.transitioned(r.state_id), plan.next.other@, StateDisposition::Closed);
        let ended = StateView {
            stateids: table.transitioned(r.state_id).retired(plan.next.other@, StateDisposition::Closed),
            open_by_owner_file: state.open_by_owner_file.remove(
                crate::protocol::owner_file_place(r.owner.owner@, r.file),
            ),
            ..state
        };
        let places = crate::registry::place_views(plan.derived@);
        lemma_links_counted(ended, places, plan.derived@.len());
        lemma_links_closed(ended, places, plan.derived@.len());
    }
}

/// An open that is confirmed or narrowed keeps the bound.
pub proof fn lemma_change_bounded(view: RuntimeView, plan: OpenChangePlan, persisted: bool, planned: nat)
    requires
        bounded(view.state, planned),
        !plan.reservation.owner.reserved_state,
    ensures
        bounded(change_finished(view, plan, persisted).state, planned),
{
    let table = view.state.stateids;
    if table.previewed(plan.reservation.state_id) is Ok {
        lemma_count_transitioned(table, plan.reservation.state_id);
        let moved = table.transitioned(plan.reservation.state_id);
        if table.previewed(plan.reservation.state_id)->Ok_0 == plan.next {
            assert(plan.next.other@ == plan.reservation.state_id.other@);
            if let Ok(record) = crate::runtime::openstate::change_target(view.state, plan) {
                lemma_count_replaced(
                    moved,
                    plan.next.other@,
                    StateRecord {
                        payload: StatePayload::Open(
                            crate::runtime::openstate::changed_open(record.payload->Open_0, plan),
                        ),
                        ..record
                    },
                );
            }
        }
    }
}

/// A new lock that is planned where there is room is one more that is both there and promised.
pub proof fn lemma_lock_planned_bounded(
    state: StateView,
    locker: OpenToLockOwner,
    open_owner: crate::protocol::OwnerKey,
    digest: crate::protocol::OwnerRequestDigest,
    created: bool,
    wish: LockWish,
    begun: Option<u64>,
    planned: nat,
)
    requires
        bounded(state, planned),
        !state.full(),
        state.stateids.room() is Some,
    ensures
        bounded(
            new_lock_judged(state, LockVerdict::Planned, locker, open_owner, digest, created, wish, begun),
            planned + 1,
        ),
{
    lemma_count_allocated(
        state.stateids,
        locker.lock_owner.client_id,
        wish.file,
        crate::runtime::lock::new_lock_payload(locker),
    );
}

/// A lock that is had, or could not be, keeps the bound; a new one is not planned any more.
pub proof fn lemma_lock_bounded(state: StateView, plan: LockPlan, persisted: bool, planned: nat)
    requires
        bounded(state, planned),
        match plan.open_reservation {
            Some(open) => planned > 0 && plan.reservation.reserved_state && !open.reserved_state,
            None => !plan.reservation.reserved_state,
        },
    ensures
        bounded(
            lock_finish_state(state, plan, persisted),
            if plan.open_reservation is Some {
                (planned - 1) as nat
            } else {
                planned
            },
        ),
{
    let table = state.stateids;
    lemma_count_activated(table, plan.state_id.other@);
    lemma_count_retired(table, plan.state_id.other@, StateDisposition::Closed);
    if table.previewed(plan.requested) is Ok {
        lemma_count_transitioned(table, plan.requested);
    }
}

/// Locks that are given back keep the bound.
pub proof fn lemma_unlock_bounded(state: StateView, plan: UnlockPlan, persisted: bool, planned: nat)
    requires
        bounded(state, planned),
        !plan.reservation.reserved_state,
    ensures
        bounded(unlock_finish_state(state, plan, persisted), planned),
{
    if state.stateids.previewed(plan.requested) is Ok {
        lemma_count_transitioned(state.stateids, plan.requested);
    }
}

/// A client whose state ends leaves the room of its states to the files that are to be let go.
pub proof fn lemma_revocation_bounded(state: StateView, client: u64, disposition: StateDisposition, planned: nat)
    requires
        bounded(state, planned),
    ensures
        bounded(revoked_state(state, client, disposition), planned),
{
    let states = states_of(state, client);
    let slots = state.stateids.slots;
    lemma_client_slots(state.stateids.boot_tag, slots, client, disposition, slots.len());
    lemma_pins_counted(state, states, client, states.len());
    lemma_pins_queued(state, states, client, states.len());
}

/// A file that was let go makes room, and the others stay on the list.
pub proof fn lemma_acknowledged(list: Seq<PendingPinRelease>, release_id: u64, n: nat)
    requires
        n <= list.len(),
    ensures
        pins_without(list, release_id, n).len() <= n,
        forall|i: int|
            0 <= i < pins_without(list, release_id, n).len() ==> (#[trigger] pins_without(
                list,
                release_id,
                n,
            )[i]).release_id != release_id && list.contains(pins_without(list, release_id, n)[i]),
        forall|i: int|
            0 <= i < n && (#[trigger] list[i]).release_id != release_id ==> pins_without(list, release_id, n).contains(
                list[i],
            ),
    decreases n,
{
    if n > 0 {
        lemma_acknowledged(list, release_id, (n - 1) as nat);
        let before = pins_without(list, release_id, (n - 1) as nat);
        let after = pins_without(list, release_id, n);
        assert forall|i: int| 0 <= i < after.len() implies (#[trigger] after[i]).release_id != release_id
            && list.contains(after[i]) by {
            if i < before.len() {
                assert(after[i] == before[i]);
            } else {
                assert(after[i] == list[n - 1]);
            }
        }
        assert forall|i: int| 0 <= i < n && (#[trigger] list[i]).release_id != release_id implies after.contains(
            list[i],
        ) by {
            if i < n - 1 {
                assert(before.contains(list[i]));
                let k = before.index_of(list[i]);
                assert(before[k] == list[i]);
                assert(after[k] == list[i]);
            } else {
                assert(after[after.len() - 1] == list[i]);
            }
        }
    }
}

} // verus!
