//! What it takes for a request to begin: a client in good standing, room, an owner whose turn has come, and an open that is
//! confirmed.

use vstd::prelude::*;

use crate::clients::{client_number, counter_after, free_client, ClientsView};
use crate::codec::{be32, from_be32, lemma_be32};
use crate::files::file_at;
use crate::identity::PrincipalView;
use crate::locks::{locks_with, locks_without, owned};
use crate::protocol::{
    access_of, file_place, lemma_file_place, lemma_owner_place, lock_place, owner_file_place, owner_place, token_of, DelegationKind, LockResult, LockStateOwner, Nfs4Limits, NfsStatus, OwnerKey, OwnerRequestDigest, ResOp, RuntimeFile, StateId,
};
use crate::record::{KeyView, RecordView, ReplayOwnerKind};
use crate::recovery::RecoveredOpen;
use crate::registry::{of_client, place_of_owner, OwnerReservation, ReservedOwnerKind, StateView};
use crate::runtime::close::{close_changes, ClosePlan};
use crate::runtime::io::{grant_refused, grants_rival};
use crate::runtime::lock::{
    lock_error_changes, lock_error_settled, lock_origin, locks_planned, LockErrorPlan, LockWish, OpenToLockOwner,
};
use crate::runtime::open::{
    existing_open, open_reserved, open_told, target_of, OpenDecision, OpenRequest, OpenReservation, OpenTargetReservation,
};
use crate::runtime::openstate::{open_state_told, OpenStateDecision};
use crate::runtime::order::{is_last, is_under_way, lemma_state_id_judged, lemma_turns};
use crate::runtime::register::{registered_number, same_incarnation, SetClientIdArgs};
use crate::runtime::unlock::unlock_verdict;
use crate::runtime::written::left_under;
use crate::runtime::{owner_error_told, OwnerErrorPlan, RuntimeView};
use crate::share::{ShareAccess, ShareReservation};
use crate::stateid::{uniform, StateIdValidationError, StatePayload, StateRecord};

verus! {

/// An open begins where its turn has come, and its client may have new state, or reclaim it, now: the client has been
/// looked at, the names are short enough, and there is room. The last request again gets the last reply.
pub proof fn lemma_open_begins(view: RuntimeView, request: OpenRequest, principal: PrincipalView, now: u64)
    ensures
        ({
            let place = place_of_owner(request.owner);
            let known = view.state.open_owners.contains_key(place);
            let sequence = view.state.open_owners[place].sequence;
            let gate = view.clients.gated(request.owner.client_id, principal, request.reclaim, now);
            &&& open_told(view, request, principal, now) is None ==> {
                &&& gate is Ok
                &&& request.owner.owner@.len() <= view.limits.max_client_owner_size
                &&& !known ==> of_client(view.state.open_owners, request.owner.client_id).len()
                    < view.limits.max_open_owners_per_client
                &&& known ==> sequence.decided(request.sequence_id, request.digest) is Execute
                &&& view.state.stateids.count() + view.state.reserved_states + view.state.pending_pin_releases.len()
                    < view.state.stateids.capacity
            }
            &&& gate matches Err(error) ==> open_told(view, request, principal, now) is Some
            &&& open_told(view, request, principal, now) matches Some(OpenDecision::Replay { result, .. }) ==> known
                && is_last(sequence, request.sequence_id, request.digest) && result == (sequence.last->0).reply
            &&& known && is_last(sequence, request.sequence_id, request.digest) ==> !(open_told(view, request, principal, now)
                is None)
        }),
{
    let place = place_of_owner(request.owner);
    lemma_turns(view.state.open_owners[place].sequence, request.sequence_id, request.digest);
}

/// The first open of an owner has to be confirmed, unless it reclaims one; an owner that is confirmed need not confirm
/// again. The open has a place in the sequence of its owner, and of no other one.
pub proof fn lemma_first_open(view: RuntimeView, request: OpenRequest, previous: Set<u64>, r: OpenReservation)
    requires
        open_reserved(view, request, previous, r),
    ensures
        request.reclaim ==> !r.confirmation_required,
        !request.reclaim && !view.state.open_owners.contains_key(place_of_owner(request.owner)) ==> r.confirmation_required,
        !request.reclaim && view.state.open_owners.contains_key(place_of_owner(request.owner)) ==> r.confirmation_required
            == !view.state.open_owners[place_of_owner(request.owner)].confirmed,
        r.owner.owner == request.owner,
        r.owner.sequence_id == request.sequence_id,
        r.owner.digest == request.digest,
        r.owner.kind == ReservedOwnerKind::Open,
        r.reclaim_previous_ids@ == previous,
{
}

/// An open is changed, closed or confirmed by its owner in its turn, through the state id that it has now, and by a client
/// in good standing. One that is to be confirmed is not confirmed yet, and one that is to be changed or closed is.
pub proof fn lemma_open_used(
    view: RuntimeView,
    state_id: StateId,
    file: RuntimeFile,
    sequence_id: u32,
    digest: OwnerRequestDigest,
    principal: PrincipalView,
    confirm: bool,
    now: u64,
    record: StateRecord,
)
    requires
        view.state.stateids.identified(state_id.other@) == Ok::<StateRecord, StateIdValidationError>(record),
        !uniform(state_id.other@, 0),
        !uniform(state_id.other@, 0xff),
    ensures
        open_state_told(view, state_id, file, sequence_id, digest, principal, confirm, now) matches OpenStateDecision::Execute(
            r,
        ) ==> {
            &&& record.payload matches StatePayload::Open(open)
            &&& open.confirmed == !confirm
            &&& record.file == file
            &&& record.sequence_id == state_id.sequence_id
            &&& r.owner.owner == open.owner
            &&& r.owner.sequence_id == sequence_id
            &&& r.owner.digest == digest
            &&& r.file == file
            &&& r.state_id == state_id
            &&& r.access == open.access
            &&& r.deny == open.deny
            &&& r.contributions == open.contributions
            &&& r.pin == open.pin
            &&& view.state.open_owners.contains_key(place_of_owner(open.owner))
            &&& view.state.open_owners[place_of_owner(open.owner)].sequence.decided(sequence_id, digest) is Execute
            &&& view.clients.touch_refused(record.client, principal, NfsStatus::StaleClientId, now) is None
        },
        record.payload matches StatePayload::Open(open) ==> (open.confirmed == !confirm && record.file == file
            && record.sequence_id == state_id.sequence_id && view.state.open_owners.contains_key(place_of_owner(open.owner))
            && view.state.open_owners[place_of_owner(open.owner)].sequence.decided(sequence_id, digest) is Execute
            && view.clients.touch_refused(record.client, principal, NfsStatus::StaleClientId, now) is None
            ==> open_state_told(view, state_id, file, sequence_id, digest, principal, confirm, now) is Execute),
        record.payload matches StatePayload::Open(open) ==> (open.confirmed == confirm && record.file == file
            && record.sequence_id == state_id.sequence_id && view.state.open_owners.contains_key(place_of_owner(open.owner))
            && view.state.open_owners[place_of_owner(open.owner)].sequence.decided(sequence_id, digest) is Execute
            && view.clients.touch_refused(record.client, principal, NfsStatus::StaleClientId, now) is None
            ==> open_state_told(view, state_id, file, sequence_id, digest, principal, confirm, now)
            == (OpenStateDecision::Error { status: NfsStatus::BadStateId, client_id: Some(record.client) })),
{
    lemma_state_id_judged(view.state.stateids, state_id, file, true, false);
}

/// The first lock of an owner begins where the turn of the open's owner has come, and that of the lock's owner, if it is
/// known. A request that is out of turn with either is told so; one that is under way is not begun again; and the answer
/// that the request was given before is given again.
pub proof fn lemma_new_lock_turns(
    state: StateView,
    locker: OpenToLockOwner,
    open_owner: OwnerKey,
    digest: OwnerRequestDigest,
    limits: Nfs4Limits,
)
    requires
        state.open_owners.contains_key(place_of_owner(open_owner)),
    ensures
        ({
            let told = state.new_lock_told(locker, open_owner, digest, limits);
            let known = state.lock_owners.contains_key(place_of_owner(locker.lock_owner));
            let opener = state.open_owners[place_of_owner(open_owner)].sequence;
            let holder = state.lock_owners[place_of_owner(locker.lock_owner)].sequence;
            let open = opener.decided(locker.open_sequence_id, digest);
            let lock = holder.decided(locker.lock_sequence_id, digest);
            let full = !known && of_client(state.lock_owners, locker.lock_owner.client_id).len()
                >= limits.max_lock_owners_per_client;
            &&& full ==> told == Some(LockResult::Failed(NfsStatus::Resource))
            &&& told is None <==> !full && open is Execute && (known ==> lock is Execute)
            &&& !full && (open is BadSequence || known && lock is BadSequence) ==> told == Some(
                LockResult::Failed(NfsStatus::BadSequenceId),
            )
            &&& !full && is_under_way(opener, locker.open_sequence_id, digest) && !is_last(
                opener,
                locker.open_sequence_id,
                digest,
            ) && !(known && lock is BadSequence) ==> told == Some(LockResult::Failed(NfsStatus::Delay))
            &&& !full && known && is_under_way(holder, locker.lock_sequence_id, digest) && !is_last(
                holder,
                locker.lock_sequence_id,
                digest,
            ) && !(open is BadSequence) ==> told == Some(LockResult::Failed(NfsStatus::Delay))
            &&& known && is_last(opener, locker.open_sequence_id, digest) && is_last(
                holder,
                locker.lock_sequence_id,
                digest,
            ) && *(opener.last->0).reply is Lock ==> told == Some((*(opener.last->0).reply)->Lock_0)
        }),
{
    let opener = state.open_owners[place_of_owner(open_owner)].sequence;
    let holder = state.lock_owners[place_of_owner(locker.lock_owner)].sequence;
    lemma_turns(opener, locker.open_sequence_id, digest);
    lemma_turns(holder, locker.lock_sequence_id, digest);
}

/// A delegation may be granted for a file beside others only where all of them are to read, and none of them is this
/// client's.
pub proof fn lemma_grant_beside(
    view: RuntimeView,
    target: OpenTargetReservation,
    client_id: u64,
    kind: DelegationKind,
    id: u64,
)
    requires
        grant_refused(view, target, client_id, kind) is None,
        view.state.delegation_eligibility.contains_key(id),
        view.state.delegation_eligibility[id].file == target.file,
    ensures
        view.state.delegation_eligibility[id].client_id != client_id,
        view.state.delegation_eligibility[id].kind == DelegationKind::Read,
        kind == DelegationKind::Read,
        target.owner.owner.client_id == client_id,
        exists|i: int|
            0 <= i < file_at(view.files, target.file).pending_opens.len() && (#[trigger] file_at(
                view.files,
                target.file,
            ).pending_opens[i]).reservation == target.reservation && file_at(
                view.files,
                target.file,
            ).pending_opens[i].owner@ == target.owner.owner@,
{
    assert(!grants_rival(view.state.delegation_eligibility[id], target.file, client_id, kind));
    let file = view.files[file_place(target.file)];
    assert(file == file_at(view.files, target.file));
    let i = choose|i: int|
        0 <= i < file.pending_opens.len() && (#[trigger] file.pending_opens[i]).reservation == target.reservation
            && file.pending_opens[i].owner@ == target.owner.owner@;
    assert(file_at(view.files, target.file).pending_opens[i].reservation == target.reservation);
}

/// An owner that opens a file again goes on with the pin by which the file is held; one that has not opened it holds it by
/// the pin of the request.
pub proof fn lemma_pin_goes_on(
    state: StateView,
    r: OpenReservation,
    file: RuntimeFile,
    recovered: Option<RecoveredOpen>,
    combined: ShareReservation,
)
    ensures
        existing_open(state, r.owner.owner, file) is None ==> target_of(state, r, file, recovered, combined).pin
            == r.provisional_pin,
        existing_open(state, r.owner.owner, file) matches Some(state_id) ==> (state.stateids.identified(
            state_id.other@,
        ) matches Ok(record) ==> (record.payload matches StatePayload::Open(open) ==> target_of(
            state,
            r,
            file,
            recovered,
            combined,
        ).pin == open.pin)),
        target_of(state, r, file, recovered, combined).existing_state == existing_open(state, r.owner.owner, file),
        target_of(state, r, file, recovered, combined).confirmation_required == r.confirmation_required,
        target_of(state, r, file, recovered, combined).delegation_eligibility is None,
{
}

/// A client that is forgotten has no registration, no lease, nothing to reclaim and no duty; the leases and the names of
/// the others stay.
pub proof fn lemma_client_forgotten(clients: ClientsView, client: u64, other: u64, name: Seq<u8>)
    requires
        clients.client_owners.contains_key(client),
    ensures
        ({
            let after = clients.unregistered(client);
            let own = clients.client_owners[client]@;
            &&& !after.client_owners.contains_key(client)
            &&& !after.leases.renewed.contains_key(client)
            &&& !after.recovery.reclaimable.contains(client)
            &&& !after.current_to_previous.contains_key(client)
            &&& forall|place: Seq<u8>| #[trigger]
                after.moved_leases.obligations.contains_key(place) ==> after.moved_leases.obligations[place].client_id
                    != client
            &&& after.slots.contains_key(own) ==> {
                &&& after.slots[own].confirmed matches Some(record) ==> record.client_id != client
                &&& after.slots[own].unconfirmed matches Some(record) ==> record.client_id != client
            }
            &&& clients.slots.contains_key(own) ==> {
                &&& (clients.slots[own].confirmed matches Some(record) && record.client_id != client)
                    ==> after.slots.contains_key(own) && after.slots[own].confirmed == clients.slots[own].confirmed
                &&& (clients.slots[own].unconfirmed matches Some(record) && record.client_id != client)
                    ==> after.slots.contains_key(own) && after.slots[own].unconfirmed == clients.slots[own].unconfirmed
            }
            &&& other != client && clients.client_owners.contains_key(other) ==> after.client_owners.contains_key(other)
                && after.client_owners[other] == clients.client_owners[other]
            &&& other != client && clients.leases.renewed.contains_key(other) ==> after.leases.renewed.contains_key(other)
                && after.leases.renewed[other] == clients.leases.renewed[other]
            &&& name != own && clients.slots.contains_key(name) && (clients.slots[name].confirmed is Some
                || clients.slots[name].unconfirmed is Some) ==> after.slots.contains_key(name) && after.slots[name]
                == clients.slots[name]
            &&& forall|place: Seq<u8>| #[trigger]
                clients.moved_leases.obligations.contains_key(place) && clients.moved_leases.obligations[place].client_id
                    != client ==> after.moved_leases.obligations.contains_key(place)
                    && after.moved_leases.obligations[place] == clients.moved_leases.obligations[place]
        }),
{
}

/// Numbers that are free are those of the run.
proof fn lemma_free_of_run(taken: Set<u64>, boot_tag: u32, counter: u32, tries: nat)
    ensures
        free_client(taken, boot_tag, counter, tries).0 matches Some(number) ==> number >> 32 == boot_tag as u64 && number
            & 0xffff_ffff != 0,
    decreases tries,
{
    if tries > 0 {
        let number = client_number(boot_tag, counter);
        assert(((boot_tag as u64) << 32 | (counter as u64)) >> 32 == boot_tag as u64) by (bit_vector);
        assert(((boot_tag as u64) << 32 | (counter as u64)) & 0xffff_ffff == counter as u64) by (bit_vector);
        lemma_free_of_run(taken, boot_tag, counter_after(counter), (tries - 1) as nat);
    }
}

/// The number of a client that registers tells the run that gave it: its upper half is the tag of the run, and its lower
/// half is not zero.
pub proof fn lemma_number_of_run(clients: ClientsView, args: SetClientIdArgs, principal: PrincipalView)
    requires
        same_incarnation(clients, args, principal) is None,
    ensures
        registered_number(clients, args, principal).0 matches Some(number) ==> number >> 32 == clients.boot_tag as u64
            && number & 0xffff_ffff != 0,
{
    lemma_free_of_run(clients.client_owners.dom(), clients.boot_tag, clients.next_client, u32::MAX as nat);
}

/// An open that is closed is deleted from the journal, and its owner's last reply is written down, as that of an owner of
/// opens; nothing else changes.
pub proof fn lemma_close_written(plan: ClosePlan, reply: Seq<u8>, key: KeyView)
    requires
        plan.reservation.owner.kind == ReservedOwnerKind::Open,
    ensures
        ({
            let changes = close_changes(plan, reply);
            let open = KeyView::Open { state_token: token_of(plan.reservation.state_id) };
            let told = KeyView::Replay {
                client_id: plan.reservation.owner.owner.client_id,
                owner_kind: ReplayOwnerKind::Open,
                owner: plan.reservation.owner.owner.owner@,
            };
            &&& left_under(changes, open, changes.len()) == Some(None::<RecordView>)
            &&& left_under(changes, told, changes.len()) matches Some(Some(RecordView::Replay(replay)))
            &&& replay.reply == reply
            &&& replay.sequence_id == plan.reservation.owner.sequence_id
            &&& replay.request_digest == (plan.reservation.owner.digest).0@
            &&& key != open && key != told ==> left_under(changes, key, changes.len()) is None
        }),
{
    reveal_with_fuel(left_under, 3);
    let changes = close_changes(plan, reply);
    assert(changes.len() == 2);
}

/// The key of the last reply to an owner.
pub open spec fn told_key(reservation: OwnerReservation) -> KeyView {
    KeyView::Replay {
        client_id: reservation.owner.client_id,
        owner_kind: match reservation.kind {
            ReservedOwnerKind::Open => ReplayOwnerKind::Open,
            ReservedOwnerKind::Lock => ReplayOwnerKind::Lock,
        },
        owner: reservation.owner.owner@,
    }
}

/// The answer to a request for a lock that is refused is written down for the lock's owner, and for the open's owner where
/// the request is the first one of the lock's owner; both keep it, each under the number of the request in its own
/// sequence.
pub proof fn lemma_lock_refusal_written(state: StateView, plan: LockErrorPlan, reply: Seq<u8>)
    requires
        plan.reservation.kind == ReservedOwnerKind::Lock,
        plan.open_reservation matches Some(open) ==> open.kind == ReservedOwnerKind::Open,
    ensures
        ({
            let changes = lock_error_changes(plan, reply);
            &&& left_under(changes, told_key(plan.reservation), changes.len()) matches Some(
                Some(RecordView::Replay(replay)),
            )
            &&& replay.reply == reply
            &&& replay.sequence_id == plan.reservation.sequence_id
            &&& plan.open_reservation matches Some(open) ==> (left_under(changes, told_key(open), changes.len()) matches Some(
                Some(RecordView::Replay(other)),
            ) && other.reply == reply && other.sequence_id == open.sequence_id)
        }),
        lock_error_settled(state, plan).1 ==> ({
            let after = lock_error_settled(state, plan).0;
            let holder = after.lock_owners[place_of_owner(plan.reservation.owner)].sequence;
            &&& is_last(holder, plan.reservation.sequence_id, plan.reservation.digest)
            &&& (holder.last->0).reply == plan.response
            &&& plan.open_reservation matches Some(open) ==> {
                let opener = after.open_owners[place_of_owner(open.owner)].sequence;
                is_last(opener, open.sequence_id, open.digest) && (opener.last->0).reply == plan.response
            }
        }),
{
    reveal_with_fuel(left_under, 3);
    let changes = lock_error_changes(plan, reply);
    assert(changes.len() == 1 || changes.len() == 2);
}

/// Where a refusal cannot be kept, the owner is told so in an answer of the kind that it waits for, and the request can
/// come again; where it is kept, the owner is told what was decided.
pub proof fn lemma_refusal_told(state: StateView, plan: OwnerErrorPlan)
    ensures
        plan.reservation.kind == ReservedOwnerKind::Open ==> owner_error_told(state, plan, false) == ResOp::Open(
            Err(NfsStatus::Resource),
        ),
        plan.reservation.kind == ReservedOwnerKind::Lock ==> owner_error_told(state, plan, false) == ResOp::Lock(
            LockResult::Failed(NfsStatus::Resource),
        ),
        state.awaits(plan.reservation) ==> owner_error_told(state, plan, true) == *plan.response,
{
}

/// An owner has one open of a file: opens of different owners, or of different files, are filed apart.
pub proof fn lemma_opens_filed_apart(a: (u64, Seq<u8>), x: RuntimeFile, b: (u64, Seq<u8>), y: RuntimeFile)
    ensures
        (owner_file_place(a, x) == owner_file_place(b, y)) == (a == b && x == y),
{
    lemma_file_place(x, y);
    lemma_file_place(y, x);
    lemma_owner_place(a, b);
    let one = owner_file_place(a, x);
    let two = owner_file_place(b, y);
    if one == two {
        assert(one.take(20) =~= file_place(x));
        assert(two.take(20) =~= file_place(y));
        assert(one.skip(20) =~= owner_place(a.0, a.1));
        assert(two.skip(20) =~= owner_place(b.0, b.1));
    }
}

/// A lock owner has one lock state of a file through an open: those of different lock owners, through different opens or of
/// different files are filed apart.
pub proof fn lemma_locks_filed_apart(
    a: ((u64, Seq<u8>), Seq<u8>),
    x: RuntimeFile,
    b: ((u64, Seq<u8>), Seq<u8>),
    y: RuntimeFile,
)
    requires
        a.1.len() == 12,
        b.1.len() == 12,
    ensures
        (lock_place(a, x) == lock_place(b, y)) == (a == b && x == y),
{
    lemma_file_place(x, y);
    lemma_file_place(y, x);
    lemma_owner_place(a.0, b.0);
    let one = lock_place(a, x);
    let two = lock_place(b, y);
    if one == two {
        assert(one.take(20) =~= file_place(x));
        assert(two.take(20) =~= file_place(y));
        assert(one.subrange(20, 32) =~= a.1);
        assert(two.subrange(20, 32) =~= b.1);
        assert(one.skip(32) =~= owner_place((a.0).0, (a.0).1));
        assert(two.skip(32) =~= owner_place((b.0).0, (b.0).1));
    }
}

/// No owner has more ranges of a file than it may: neither a lock that is had nor locks that are given back leave it more.
pub proof fn lemma_ranges_bounded(
    view: RuntimeView,
    owner: LockStateOwner,
    wish: LockWish,
    access: ShareAccess,
    state_id: StateId,
)
    ensures
        locks_planned(view.files, owner, wish, access, view.limits) is None ==> ({
            let after = locks_with(file_at(view.files, wish.file).locks, owner, access_of(wish.lock_type), wish.range);
            owned(after, owner@, after.len()).len() <= view.limits.max_lock_ranges_per_state
        }),
        unlock_verdict(view, state_id, owner, wish.file, wish.range) is Planned ==> ({
            let after = locks_without(file_at(view.files, wish.file).locks, owner, wish.range);
            owned(after, owner@, after.len()).len() <= view.limits.max_lock_ranges_per_state
        }),
{
}

/// Whoever has locks goes on through the open that they are held through: that open still lives, and is of the same client
/// and the same file.
pub proof fn lemma_locks_through_own(state: StateView, open_state_id: StateId, client: u64, file: RuntimeFile)
    ensures
        lock_origin(state, open_state_id, client, file) matches Ok((access, confirmed)) ==> {
            &&& state.stateids.identified(open_state_id.other@) matches Ok(record)
            &&& record.client == client
            &&& record.file == file
            &&& record.payload matches StatePayload::Open(open)
            &&& open.access == access
            &&& open.confirmed == confirmed
        },
        state.stateids.identified(open_state_id.other@) is Err ==> lock_origin(state, open_state_id, client, file) is Err,
{
}

/// The stored form of a state id tells its number and its identity, and no two state ids have the same.
pub proof fn lemma_stored_state_id(a: StateId, b: StateId)
    ensures
        token_of(a).len() == 16,
        from_be32(token_of(a).take(4)) == a.sequence_id,
        token_of(a).skip(4) == a.other@,
        token_of(a) == token_of(b) ==> a.sequence_id == b.sequence_id && a.other@ == b.other@,
{
    lemma_be32(a.sequence_id, seq![]);
    lemma_be32(b.sequence_id, seq![]);
    assert(token_of(a).take(4) =~= be32(a.sequence_id));
    assert(token_of(b).take(4) =~= be32(b.sequence_id));
    assert(token_of(a).skip(4) =~= a.other@);
    assert(token_of(b).skip(4) =~= b.other@);
}

} // verus!
