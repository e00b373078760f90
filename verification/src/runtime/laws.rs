//! What holds of the server as a whole.

use std::sync::Arc;

use vstd::prelude::*;

use crate::clients::{authenticated, free_client, ClientAuthenticationError, ClientsView};
use crate::files::FileView;
use crate::identity::PrincipalView;
use crate::locks::{locks_left, HeldLock};
use crate::owner::{OwnerSequence, SequenceDecision};
use crate::protocol::{
    kinds_conflict, no_effect, DelegationKind, LockResult, Nfs4Limits, NfsStatus, ReplayEffect, ResOp, RuntimeFile,
};
use crate::registry::{of_client, place_of_owner, ClientOwned, Owner, OwnerReservation, ReservedOwnerKind, StateView};
use crate::runtime::close::{close_finished, close_ready, closed_state, lemma_links_closed, ClosePlan};
use crate::runtime::complete::{open_finished, opened_state, OpenPlan};
use crate::runtime::confirm::{confirmed_clients, ConfirmPlan};
use crate::runtime::expiry::grace_ended;
use crate::runtime::io::{grant_blocked, grant_refused};
use crate::runtime::lock::{lock_decided, lock_finish_result, lock_finish_state, lock_finished, LockPlan};
use crate::runtime::open::{
    open_begun, open_blocked, open_gated, open_owner_of, open_reclaimable, open_told, OpenDecision, OpenRequest,
    OpenReservation, OpenTargetReservation,
};
use crate::runtime::openstate::{change_finished, repeated_at, OpenChangePlan};
use crate::runtime::preflight::{preflight_after, Subject};
use crate::runtime::register::{registered_number, same_incarnation, SetClientIdArgs};
use crate::runtime::revoke::{lemma_pins_queued, pins_queued, revoked, revoked_state, states_of};
use crate::runtime::unlock::{unlock_finish_state, unlock_finished, UnlockPlan};
use crate::runtime::RuntimeView;
use crate::share::{shares_without, wire_access, wire_deny, ShareReservation};
use crate::stateid::{client_retired, slot_client, ActiveView, Slot, StateDisposition, StatePayload};

verus! {

/// The place that an open has in its owner's sequence.
pub open spec fn open_turn(state: StateView, request: OpenRequest) -> OwnerReservation {
    OwnerReservation {
        kind: ReservedOwnerKind::Open,
        owner: request.owner,
        sequence_id: request.sequence_id,
        digest: request.digest,
        reserved_state: true,
        created_owner: !state.open_owners.contains_key(place_of_owner(request.owner)),
    }
}

/// An open that was begun and is given up leaves no trace but that its number is not used again.
pub proof fn lemma_open_undone(state: StateView, request: OpenRequest)
    requires
        open_owner_of(state, request).sequence.decided(request.sequence_id, request.digest) is Execute,
        state.reserved_states < usize::MAX,
    ensures
        open_begun(state, request).dropped(open_turn(state, request)) == (StateView {
            next_reservation: open_begun(state, request).next_reservation,
            ..state
        }),
{
    let place = place_of_owner(request.owner);
    let owner = open_owner_of(state, request);
    let begun = open_begun(state, request);
    assert(owner.sequence.reserved(request.sequence_id, request.digest).cancelled(request.sequence_id, request.digest)
        == owner.sequence);
    assert(begun.dropped(open_turn(state, request)).open_owners =~= state.open_owners);
}

/// A request that is given up can come again: it is the next one once more.
pub proof fn lemma_given_up_retries(
    state: StateView,
    reservation: OwnerReservation,
    before: OwnerSequence,
    owner: Owner,
)
    requires
        before.decided(reservation.sequence_id, reservation.digest) is Execute,
        state.owners(reservation.kind).contains_key(place_of_owner(reservation.owner)),
        state.owners(reservation.kind)[place_of_owner(reservation.owner)] == (Owner {
            sequence: before.reserved(reservation.sequence_id, reservation.digest),
            ..owner
        }),
        !reservation.created_owner,
    ensures
        state.dropped(reservation).owners(reservation.kind).contains_key(place_of_owner(reservation.owner)),
        state.dropped(reservation).owners(reservation.kind)[place_of_owner(reservation.owner)].sequence.decided(
            reservation.sequence_id,
            reservation.digest,
        ) is Execute,
{
}

/// The shares of the file at a place.
pub open spec fn shares_at(files: Map<Seq<u8>, FileView>, place: Seq<u8>) -> Seq<ShareReservation> {
    if files.contains_key(place) {
        files[place].shares
    } else {
        seq![]
    }
}

/// The locks of the file at a place.
pub open spec fn locks_at(files: Map<Seq<u8>, FileView>, place: Seq<u8>) -> Seq<HeldLock> {
    if files.contains_key(place) {
        files[place].locks
    } else {
        seq![]
    }
}

/// What clients have open and locked is the same.
pub open spec fn holdings_kept(before: RuntimeView, after: RuntimeView) -> bool {
    &&& forall|place: Seq<u8>| #[trigger] shares_at(after.files, place) == shares_at(before.files, place)
    &&& forall|place: Seq<u8>| #[trigger] locks_at(after.files, place) == locks_at(before.files, place)
    &&& after.state.open_by_owner_file == before.state.open_by_owner_file
    &&& after.state.lock_by_state == before.state.lock_by_state
    &&& after.state.recovered_opens == before.state.recovered_opens
    &&& after.state.recovered_locks == before.state.recovered_locks
    &&& after.state.pending_pin_releases == before.state.pending_pin_releases
    &&& after.clients == before.clients
}

/// An open that could not be written to the journal changes nothing that clients have.
pub proof fn lemma_failed_open_keeps(view: RuntimeView, plan: OpenPlan)
    ensures
        holdings_kept(view, open_finished(view, plan, false)),
{
    let after = open_finished(view, plan, false);
    assert forall|place: Seq<u8>| #[trigger] shares_at(after.files, place) == shares_at(view.files, place) by {
        if view.files.contains_key(place) && !after.files.contains_key(place) {
            assert(view.files[place].shares =~= seq![]);
        }
    }
    assert forall|place: Seq<u8>| #[trigger] locks_at(after.files, place) == locks_at(view.files, place) by {
        if view.files.contains_key(place) && !after.files.contains_key(place) {
            assert(view.files[place].locks =~= seq![]);
        }
    }
}

/// An open that could not be closed in the journal stays open.
pub proof fn lemma_failed_close_keeps(view: RuntimeView, plan: ClosePlan)
    ensures
        holdings_kept(view, close_finished(view, plan, false)),
        close_finished(view, plan, false).state.stateids == view.state.stateids,
{
}

/// An open that could not be changed in the journal stays as it is.
pub proof fn lemma_failed_change_keeps(view: RuntimeView, plan: OpenChangePlan)
    ensures
        holdings_kept(view, change_finished(view, plan, false)),
        change_finished(view, plan, false).state.stateids == view.state.stateids,
{
}

/// A lock that could not be written to the journal changes nothing that clients have.
pub proof fn lemma_failed_lock_keeps(view: RuntimeView, plan: LockPlan)
    ensures
        holdings_kept(view, lock_finished(view, plan, false)),
{
}

/// Locks that could not be given back in the journal are still held.
pub proof fn lemma_failed_unlock_keeps(view: RuntimeView, plan: UnlockPlan)
    ensures
        holdings_kept(view, unlock_finished(view, plan, false)),
        unlock_finished(view, plan, false).state.stateids == view.state.stateids,
{
}

/// The owner of an answered request keeps the reply.
pub proof fn lemma_settled_repeats(state: StateView, reservation: OwnerReservation, reply: Arc<ResOp>, effect: ReplayEffect)
    requires
        state.awaits(reservation),
    ensures
        ({
            let owners = state.settled(reservation, reply, effect).owners(reservation.kind);
            let place = place_of_owner(reservation.owner);
            owners.contains_key(place) && owners[place].sequence.decided(reservation.sequence_id, reservation.digest)
                == (SequenceDecision::Replay { result: reply, context_effect: effect })
        }),
{
}

/// A completed open that is asked for again gets the same reply, whoever carries it, and nothing is opened again.
pub proof fn lemma_open_replayed(
    view: RuntimeView,
    after: RuntimeView,
    plan: OpenPlan,
    request: OpenRequest,
    principal: PrincipalView,
    now: u64,
)
    requires
        view.state.awaits(plan.target.owner),
        plan.target.owner.kind == ReservedOwnerKind::Open,
        after.state == opened_state(view.state, plan),
        request.owner == plan.target.owner.owner,
        request.sequence_id == plan.target.owner.sequence_id,
        request.digest == plan.target.owner.digest,
        wire_access(request.share_access) is Some,
        wire_deny(request.share_deny) is Some,
        request.owner.owner@.len() <= after.limits.max_client_owner_size,
        open_gated(after, request, principal, now) is Ok,
    ensures
        open_told(after, request, principal, now) == Some(
            OpenDecision::Replay {
                result: plan.response,
                effect: plan.effect,
                client_id: if request.authenticate_clientid {
                    Some(request.owner.client_id)
                } else {
                    None
                },
            },
        ),
{
}

/// An open that is closed is not known any more, and yet its owner, asking again, gets the same reply.
pub proof fn lemma_close_replayed(view: RuntimeView, plan: ClosePlan)
    requires
        close_ready(view, plan),
        view.state.awaits(plan.reservation.owner),
    ensures
        repeated_at(
            closed_state(view.state, plan),
            place_of_owner(plan.reservation.owner.owner),
            plan.reservation.owner.sequence_id,
            plan.reservation.owner.digest,
        ),
        closed_state(view.state, plan).open_owners[place_of_owner(plan.reservation.owner.owner)].sequence.last matches Some(
            last,
        ) && last.reply == plan.response && last.effect == no_effect(),
{
    let state = view.state;
    let r = plan.reservation;
    let ended = StateView {
        stateids: state.stateids.transitioned(r.state_id).retired(plan.next.other@, StateDisposition::Closed),
        open_by_owner_file: state.open_by_owner_file.remove(
            crate::protocol::owner_file_place(r.owner.owner@, r.file),
        ),
        ..state
    };
    lemma_links_closed(ended, crate::registry::place_views(plan.derived@), plan.derived@.len());
}

/// A closed open is let go exactly once: its file comes last on the list of those to be let go.
pub proof fn lemma_close_queues(view: RuntimeView, plan: ClosePlan)
    ensures
        ({
            let after = close_finished(view, plan, true).state.pending_pin_releases;
            &&& after.len() == view.state.pending_pin_releases.len() + 1
            &&& after.drop_last() == view.state.pending_pin_releases
            &&& after.last().open.file == plan.reservation.file
            &&& after.last().open.pin == plan.reservation.pin
            &&& after.last().open.client_id == plan.reservation.owner.owner.client_id
        }),
{
    let state = view.state;
    let r = plan.reservation;
    let ended = StateView {
        stateids: state.stateids.transitioned(r.state_id).retired(plan.next.other@, StateDisposition::Closed),
        open_by_owner_file: state.open_by_owner_file.remove(
            crate::protocol::owner_file_place(r.owner.owner@, r.file),
        ),
        ..state
    };
    lemma_links_closed(ended, crate::registry::place_views(plan.derived@), plan.derived@.len());
    let after = close_finished(view, plan, true).state.pending_pin_releases;
    assert(after.drop_last() =~= state.pending_pin_releases);
}

/// A lock that was granted and is asked for again gets the same reply.
pub proof fn lemma_lock_replayed(view: RuntimeView, plan: LockPlan)
    requires
        plan.reservation.kind == ReservedOwnerKind::Lock,
        plan.open_reservation matches Some(open) ==> open.kind == ReservedOwnerKind::Open,
        view.state.awaits(plan.reservation),
        lock_finish_result(view, plan, true) is Granted,
        *plan.response == ResOp::Lock(LockResult::Granted(plan.state_id)),
    ensures
        ({
            let after = lock_finish_state(view.state, plan, true);
            after.lock_turn_told(
                plan.reservation.owner,
                plan.reservation.sequence_id,
                plan.reservation.digest,
            ) matches Some(decision) && lock_decided(decision) == Some(LockResult::Granted(plan.state_id))
        }),
{
}

/// Locks that were given back and are given back again get the same reply.
pub proof fn lemma_unlock_replayed(view: RuntimeView, plan: UnlockPlan)
    requires
        plan.reservation.kind == ReservedOwnerKind::Lock,
        view.state.awaits(plan.reservation),
        view.state.stateids.previewed(plan.requested) == Ok::<
            crate::protocol::StateId,
            crate::stateid::StateIdValidationError,
        >(plan.state_id),
    ensures
        unlock_finish_state(view.state, plan, true).lock_turn_told(
            plan.reservation.owner,
            plan.reservation.sequence_id,
            plan.reservation.digest,
        ) == Some(SequenceDecision::Replay { result: plan.response, context_effect: no_effect() }),
{
}

/// What is left of a client's shares.
proof fn lemma_no_shares(shares: Seq<ShareReservation>, client: u64, n: nat)
    requires
        n <= shares.len(),
    ensures
        forall|i: int|
            0 <= i < shares_without(shares, client, n).len() ==> (#[trigger] shares_without(
                shares,
                client,
                n,
            )[i]).owner.client_id != client,
    decreases n,
{
    if n > 0 {
        lemma_no_shares(shares, client, (n - 1) as nat);
        let before = shares_without(shares, client, (n - 1) as nat);
        let after = shares_without(shares, client, n);
        assert forall|i: int| 0 <= i < after.len() implies (#[trigger] after[i]).owner.client_id != client by {
            if i < before.len() {
                assert(after[i] == before[i]);
            }
        }
    }
}

/// What is left of a client's locks.
proof fn lemma_no_client_locks(locks: Seq<HeldLock>, client: u64, n: nat)
    requires
        n <= locks.len(),
    ensures
        forall|i: int|
            0 <= i < locks_left(locks, client, n).len() ==> (#[trigger] locks_left(
                locks,
                client,
                n,
            )[i]).owner.owner.client_id != client,
    decreases n,
{
    if n > 0 {
        lemma_no_client_locks(locks, client, (n - 1) as nat);
        let before = locks_left(locks, client, (n - 1) as nat);
        let after = locks_left(locks, client, n);
        assert forall|i: int| 0 <= i < after.len() implies (#[trigger] after[i]).owner.owner.client_id != client by {
            if i < before.len() {
                assert(after[i] == before[i]);
            }
        }
    }
}

/// What is left of a client's slots.
proof fn lemma_no_slots(slots: Seq<Slot>, client: u64, disposition: StateDisposition, n: nat)
    requires
        n <= slots.len(),
    ensures
        client_retired(slots, client, disposition, n).len() == n,
        forall|i: int|
            0 <= i < n ==> slot_client(#[trigger] client_retired(slots, client, disposition, n)[i]) != Some(client),
        forall|i: int|
            0 <= i < n && slot_client(slots[i]) != Some(client) ==> #[trigger] client_retired(
                slots,
                client,
                disposition,
                n,
            )[i] == slots[i],
    decreases n,
{
    if n > 0 {
        lemma_no_slots(slots, client, disposition, (n - 1) as nat);
    }
}

/// A client whose state has ended has no owners, no states, no shares and no locks, and other clients keep what they
/// have.
pub proof fn lemma_revoked_gone(view: RuntimeView, client: u64, disposition: StateDisposition)
    ensures
        ({
            let after = revoked(view, client, disposition);
            &&& of_client(after.state.open_owners, client) == Set::<Seq<u8>>::empty()
            &&& of_client(after.state.lock_owners, client) == Set::<Seq<u8>>::empty()
            &&& of_client(after.state.open_by_owner_file, client) == Set::<Seq<u8>>::empty()
            &&& of_client(after.state.lock_by_state, client) == Set::<Seq<u8>>::empty()
            &&& after.state.stateids.slots.len() == view.state.stateids.slots.len()
            &&& forall|i: int|
                0 <= i < after.state.stateids.slots.len() ==> slot_client(#[trigger] after.state.stateids.slots[i]) != Some(
                    client,
                )
            &&& forall|i: int|
                0 <= i < after.state.stateids.slots.len() && slot_client(view.state.stateids.slots[i]) != Some(client)
                    ==> #[trigger] after.state.stateids.slots[i] == view.state.stateids.slots[i]
            &&& forall|place: Seq<u8>, i: int|
                0 <= i < shares_at(after.files, place).len() ==> (#[trigger] shares_at(
                    after.files,
                    place,
                )[i]).owner.client_id != client
            &&& forall|place: Seq<u8>, i: int|
                0 <= i < locks_at(after.files, place).len() ==> (#[trigger] locks_at(
                    after.files,
                    place,
                )[i]).owner.owner.client_id != client
            &&& forall|place: Seq<u8>| #[trigger]
                view.state.open_by_owner_file.contains_key(place) && view.state.open_by_owner_file[place].client()
                    != client ==> after.state.open_by_owner_file.contains_key(place)
                    && after.state.open_by_owner_file[place] == view.state.open_by_owner_file[place]
        }),
{
    let after = revoked(view, client, disposition);
    let slots = view.state.stateids.slots;
    lemma_no_slots(slots, client, disposition, slots.len());
    assert(of_client(after.state.open_owners, client) =~= Set::<Seq<u8>>::empty());
    assert(of_client(after.state.lock_owners, client) =~= Set::<Seq<u8>>::empty());
    assert(of_client(after.state.open_by_owner_file, client) =~= Set::<Seq<u8>>::empty());
    assert(of_client(after.state.lock_by_state, client) =~= Set::<Seq<u8>>::empty());
    assert forall|place: Seq<u8>, i: int| 0 <= i < shares_at(after.files, place).len() implies (#[trigger] shares_at(
        after.files,
        place,
    )[i]).owner.client_id != client by {
        lemma_no_shares(view.files[place].shares, client, view.files[place].shares.len());
    }
    assert forall|place: Seq<u8>, i: int| 0 <= i < locks_at(after.files, place).len() implies (#[trigger] locks_at(
        after.files,
        place,
    )[i]).owner.owner.client_id != client by {
        lemma_no_client_locks(view.files[place].locks, client, view.files[place].locks.len());
    }
}

/// The file of a state is to be let go.
pub open spec fn release_listed(state: StateView, one: ActiveView, client: u64) -> bool {
    one.payload matches StatePayload::Open(open) && exists|k: int|
        0 <= k < state.pending_pin_releases.len() && (#[trigger] state.pending_pin_releases[k]).open.file == one.file
            && state.pending_pin_releases[k].open.pin == open.pin && state.pending_pin_releases[k].open.client_id == client
}

/// What is on the list of files to be let go stays there while more come.
proof fn lemma_listed(state: StateView, states: Seq<ActiveView>, client: u64, n: nat)
    requires
        n <= states.len(),
    ensures
        forall|i: int|
            0 <= i < n && (#[trigger] states[i]).payload is Open ==> release_listed(
                pins_queued(state, states, client, n),
                states[i],
                client,
            ),
    decreases n,
{
    if n > 0 {
        lemma_listed(state, states, client, (n - 1) as nat);
        let before = pins_queued(state, states, client, (n - 1) as nat);
        let after = pins_queued(state, states, client, n);
        assert forall|i: int| 0 <= i < n && (#[trigger] states[i]).payload is Open implies release_listed(
            after,
            states[i],
            client,
        ) by {
            let one = states[i];
            if i < n - 1 {
                assert(release_listed(before, one, client));
                let k = choose|k: int|
                    0 <= k < before.pending_pin_releases.len() && (#[trigger] before.pending_pin_releases[k]).open.file
                        == one.file && before.pending_pin_releases[k].open.pin == one.payload->Open_0.pin
                        && before.pending_pin_releases[k].open.client_id == client;
                assert(after.pending_pin_releases[k] == before.pending_pin_releases[k]);
            } else {
                assert(after.pending_pin_releases.last().open.file == one.file);
                let k = after.pending_pin_releases.len() - 1;
                assert(after.pending_pin_releases[k].open.file == one.file);
            }
        }
    }
}

/// The file of every open of a client whose state ends is on the list of those to be let go.
pub proof fn lemma_revoked_released(state: StateView, client: u64, disposition: StateDisposition)
    ensures
        forall|i: int|
            0 <= i < states_of(state, client).len() && (#[trigger] states_of(state, client)[i]).payload is Open
                ==> release_listed(revoked_state(state, client, disposition), states_of(state, client)[i], client),
{
    let states = states_of(state, client);
    lemma_listed(state, states, client, states.len());
    lemma_pins_queued(state, states, client, states.len());
    let queued = pins_queued(state, states, client, states.len());
    let after = revoked_state(state, client, disposition);
    assert(after.pending_pin_releases == queued.pending_pin_releases);
    assert forall|i: int| 0 <= i < states.len() && (#[trigger] states[i]).payload is Open implies release_listed(
        after,
        states[i],
        client,
    ) by {
        assert(release_listed(queued, states[i], client));
    }
}

/// While clients reclaim, none gets new state; otherwise none reclaims, and where there was no run before, none ever
/// does; and one that was not there before never does. A client that is known is told which of these holds.
pub proof fn lemma_grace_gates(clients: ClientsView, client: u64, principal: PrincipalView, now: u64)
    ensures
        clients.recovery.in_grace(now) ==> clients.gated(client, principal, false, now) is Err,
        !clients.recovery.in_grace(now) ==> clients.gated(client, principal, true, now) is Err,
        clients.recovery.grace_until is None ==> clients.gated(client, principal, true, now) is Err,
        clients.previous(client) == Set::<u64>::empty() ==> clients.gated(client, principal, true, now) is Err,
        clients.touch_refused(client, principal, NfsStatus::StaleClientId, now) is None ==> {
            &&& clients.recovery.in_grace(now) ==> clients.gated(client, principal, false, now) == Err::<
                Set<u64>,
                ClientAuthenticationError,
            >(authenticated(NfsStatus::Grace, client))
            &&& !clients.recovery.in_grace(now) ==> clients.gated(client, principal, true, now) == Err::<
                Set<u64>,
                ClientAuthenticationError,
            >(authenticated(NfsStatus::NoGrace, client))
            &&& clients.recovery.in_grace(now) && clients.previous(client) == Set::<u64>::empty() ==> clients.gated(
                client,
                principal,
                true,
                now,
            ) == Err::<Set<u64>, ClientAuthenticationError>(authenticated(NfsStatus::ReclaimBad, client))
            &&& !clients.recovery.in_grace(now) ==> clients.gated(client, principal, false, now) == Ok::<
                Set<u64>,
                ClientAuthenticationError,
            >(Set::empty())
        },
{
}

/// Once the time to reclaim is over, nothing can be reclaimed any more.
pub proof fn lemma_grace_end_forgets(view: RuntimeView, reservation: OpenReservation, file: RuntimeFile, now: u64)
    ensures
        !open_reclaimable(grace_ended(view).state, reservation, file),
        !grace_ended(view).clients.recovery.in_grace(now),
        grace_ended(view).state.recovered_locks == Map::<Seq<u8>, crate::recovery::RecoveredLock>::empty(),
        grace_ended(view).files == view.files,
        grace_ended(view).state.stateids == view.state.stateids,
{
}

/// While a delegation may be granted, no access of another client that stands against it begins, and no such open.
pub proof fn lemma_grant_excludes(
    state: StateView,
    id: u64,
    client: Option<u64>,
    access: DelegationKind,
    truncate: bool,
    limits: Nfs4Limits,
    reservation: OpenReservation,
)
    requires
        state.delegation_eligibility.contains_key(id),
        client != Some(state.delegation_eligibility[id].client_id),
        truncate || kinds_conflict(state.delegation_eligibility[id].kind, access),
    ensures
        state.access_number(state.delegation_eligibility[id].file, client, access, truncate, limits) == Err::<
            u64,
            NfsStatus,
        >(NfsStatus::Delay),
        reservation.owner.owner.client_id != state.delegation_eligibility[id].client_id && (
        state.delegation_eligibility[id].kind == DelegationKind::Write || reservation.access.write) ==> open_blocked(
            state,
            reservation,
            state.delegation_eligibility[id].file,
        ),
{
    assert(state.access_blocked(state.delegation_eligibility[id].file, client, access, truncate));
}

/// While an access goes on, no delegation that stands against it is granted to another client.
pub proof fn lemma_access_excludes(view: RuntimeView, id: u64, target: OpenTargetReservation, client: u64, kind: DelegationKind)
    requires
        view.state.delegation_access.contains_key(id),
        view.state.delegation_access[id].file == target.file,
        view.state.delegation_access[id].client_id != Some(client),
        view.state.delegation_access[id].truncate || kinds_conflict(kind, view.state.delegation_access[id].access),
    ensures
        grant_refused(view, target, client, kind) is Some,
{
    assert(crate::runtime::io::access_against(view.state.delegation_access[id], target.file, client, kind));
    assert(grant_blocked(view.state, target.file, client, kind));
}

/// A number that is found is not taken.
proof fn lemma_free_client(taken: Set<u64>, boot_tag: u32, counter: u32, tries: nat)
    ensures
        free_client(taken, boot_tag, counter, tries).0 matches Some(number) ==> !taken.contains(number),
    decreases tries,
{
    if tries > 0 && !(counter != 0 && !taken.contains(crate::clients::client_number(boot_tag, counter))) {
        lemma_free_client(taken, boot_tag, crate::clients::counter_after(counter), (tries - 1) as nat);
    }
}

/// A client that registers gets a number that no client has, unless it is registered already.
pub proof fn lemma_number_fresh(clients: ClientsView, args: SetClientIdArgs, principal: PrincipalView)
    requires
        same_incarnation(clients, args, principal) is None,
    ensures
        registered_number(clients, args, principal).0 matches Some(number) ==> !clients.client_owners.contains_key(number),
{
    lemma_free_client(clients.client_owners.dom(), clients.boot_tag, clients.next_client, u32::MAX as nat);
}

/// A confirmation starts no lease; the first renewal does.
pub proof fn lemma_first_renewal(clients: ClientsView, plan: ConfirmPlan, principal: PrincipalView, now: u64)
    ensures
        confirmed_clients(clients, plan).leases == clients.leases,
        ({
            let known = confirmed_clients(clients, plan);
            let client = plan.record.client_id;
            known.touch_refused(client, principal, NfsStatus::Access, now) is None ==> known.touched(
                client,
                principal,
                NfsStatus::Access,
                now,
            ).leases.renewed.contains_key(client)
        }),
{
}

/// A request with a state id that is not valid renews no lease, unless it is one that its owner has had the reply to.
pub proof fn lemma_invalid_renews_nothing(
    view: RuntimeView,
    subject: Subject,
    file: RuntimeFile,
    principal: PrincipalView,
    now: u64,
)
    requires
        view.state.stateids.validated(subject.state_id, file, subject.opens, !subject.opens) is Err,
        !(subject.standing matches Ok(Some(_))),
    ensures
        preflight_after(view, subject, file, principal, now) == view,
{
}

} // verus!
