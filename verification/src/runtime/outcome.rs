//! What a request that succeeds leaves behind: the state id that is answered, what it stands for, and the file agree.

use vstd::prelude::*;

use crate::files::file_at;
use crate::identity::PrincipalView;
use crate::journal::ChangeView;
use crate::locks::{owned, pieces_normal, Piece};
use crate::protocol::{
    file_of, file_place, lock_kind, other_of, owner_file_place, stable_of, token_of, DelegationKind, LockAccess,
    LockResult, Nfs4Limits, RuntimeFile, StateId,
};
use crate::record::{KeyView, RecordView};
use crate::recovery::{
    hydrated_lock, hydrated_open, ranges_sound, RecoveredLockView, RecoveredOpen, RecoveredOpenView,
};
use crate::registry::StateView;
use crate::runtime::complete::{new_open, open_finished, open_ready, opened_stateids, OpenPlan};
use crate::runtime::exclusion::for_writing;
use crate::runtime::lock::{
    lock_admitted, lock_finish_result, lock_finished, plan_reclaims, wished, LockPlan, LockWish,
};
use crate::runtime::open::{open_reclaimable, open_reclaims, target_recovered, target_reserved, OpenReservation};
use crate::runtime::openstate::{
    change_applied, change_finish_result, change_finished, changed_record, open_change_changes, OpenChangePlan,
};
use crate::runtime::restart::{lemma_contributions_recovered, lemma_ranges_recovered, piece_writable};
use crate::runtime::unlock::{ranges_left, unlock_changes, unlock_finish_result, unlock_finished, UnlockPlan};
use crate::runtime::{grant_against, RuntimeView};
use crate::share::{lemma_share_found, lemma_wire_round_trip, share_at, share_put, ShareReservation};
use crate::stateid::{
    uniform, ByteRangeLockState, OpenState, SlotState, StateIdValidation, StateIdValidationError, StatePayload, StateRecord,
};

verus! {

/// The owner of an open has a share of its file that allows and denies what the open does.
pub open spec fn share_as_open(shares: Seq<ShareReservation>, open: OpenState) -> bool {
    exists|k: int|
        0 <= k < shares.len() && (#[trigger] shares[k]).owner@ == open.owner@ && shares[k].access == open.access
            && shares[k].deny == open.deny && shares[k].contributions == open.contributions
}

/// A share that is put in is there, and those of the other owners are as they were.
proof fn lemma_put_there(shares: Seq<ShareReservation>, share: ShareReservation)
    ensures
        share_put(shares, share).contains(share),
        forall|i: int|
            0 <= i < shares.len() && (#[trigger] shares[i]).owner@ != share.owner@ ==> share_put(shares, share).contains(
                shares[i],
            ),
{
    lemma_share_found(shares, share.owner@, shares.len());
    let after = share_put(shares, share);
    match share_at(shares, share.owner@, shares.len()) {
        Some(k) => {
            assert(after[k] == share);
        },
        None => {
            assert(after[shares.len() as int] == share);
        },
    }
    assert forall|i: int| 0 <= i < shares.len() && (#[trigger] shares[i]).owner@ != share.owner@ implies after.contains(
        shares[i],
    ) by {
        assert(after[i] == shares[i]);
    }
}

/// An open that is complete is known by the state id that its owner is answered: it stands for that file and for what was
/// agreed on, its owner's share of the file allows and denies the same, and the shares of the others are as they were. The
/// owner's open of the file is found by that state id, and nothing of the request is pending.
pub proof fn lemma_open_stands(view: RuntimeView, plan: OpenPlan, record: StateRecord, open: OpenState)
    requires
        open_ready(view, plan),
        record.payload == StatePayload::Open(open),
        record.file == plan.target.file,
        open.owner == plan.target.owner.owner,
        match plan.target.existing_state {
            Some(previous) => view.state.stateids.identified(previous.other@) == Ok::<
                StateRecord,
                StateIdValidationError,
            >(record),
            None => {
                &&& view.state.stateids.slots[view.state.stateids.slot_of(plan.state_id.other@)->Ok_0].state
                    == SlotState::Pending(record)
                &&& record.payload == new_open(plan.target, plan.confirmation_required)
                &&& record.sequence_id == plan.state_id.sequence_id
            },
        },
    ensures
        ({
            let after = open_finished(view, plan, true);
            let file = file_at(after.files, plan.target.file);
            let link = owner_file_place(plan.target.owner.owner@, plan.target.file);
            &&& after.state.stateids.validated(plan.state_id, plan.target.file, true, false) matches Ok(
                StateIdValidation::Active(now),
            )
            &&& now.file == plan.target.file
            &&& now.client == record.client
            &&& now.payload matches StatePayload::Open(stands)
            &&& stands.owner == plan.target.owner.owner
            &&& stands.access == plan.target.access
            &&& stands.deny == plan.target.deny
            &&& stands.contributions == plan.target.contributions
            &&& stands.pin == open.pin
            &&& stands.confirmed == if plan.target.existing_state is None {
                !plan.confirmation_required
            } else {
                open.confirmed
            }
            &&& share_as_open(file.shares, stands)
            &&& after.state.open_by_owner_file.contains_key(link)
            &&& after.state.open_by_owner_file[link].state_id == plan.state_id
            &&& forall|i: int|
                0 <= i < file_at(view.files, plan.target.file).shares.len() && (#[trigger] file_at(
                    view.files,
                    plan.target.file,
                ).shares[i]).owner@ != plan.target.owner.owner@ ==> file.shares.contains(
                    file_at(view.files, plan.target.file).shares[i],
                )
            &&& file.locks == file_at(view.files, plan.target.file).locks
            &&& plan.recovered matches Some(found) ==> !after.state.recovered_opens.contains_key(found.state_token@)
        }),
{
    let place = file_place(plan.target.file);
    let share = ShareReservation {
        owner: plan.target.owner.owner,
        access: plan.target.access,
        deny: plan.target.deny,
        contributions: plan.target.contributions,
    };
    let after = open_finished(view, plan, true);
    let table = view.state.stateids;
    lemma_put_there(view.files[place].shares, share);
    let shares = after.files[place].shares;
    let k = shares.index_of(share);
    assert(shares[k] == share);
    match plan.target.existing_state {
        Some(previous) => {
            assert(previous.other == plan.state_id.other);
            let moved = table.transitioned(previous);
            assert(moved.slot_of(previous.other@) == table.slot_of(previous.other@));
            let changed = opened_stateids(view.state, plan);
            assert(changed.slot_of(previous.other@) == table.slot_of(previous.other@));
            assert(after.state.stateids == changed);
        },
        None => {
            let changed = table.activated(plan.state_id.other@);
            assert(changed.slot_of(plan.state_id.other@) == table.slot_of(plan.state_id.other@));
            assert(after.state.stateids == changed);
        },
    }
}

/// An open that is narrowed stands for what its share of the file does, and an open that is confirmed for what it did
/// before; either way the state id that is answered is the good one, and the one before is old.
pub proof fn lemma_change_stands(view: RuntimeView, plan: OpenChangePlan, open: OpenState)
    requires
        change_finish_result(view, plan, true) is Ok,
        plan.reservation.state_id.sequence_id != u32::MAX,
        view.state.stateids.identified(plan.reservation.state_id.other@) matches Ok(record) && record.payload
            == StatePayload::Open(open) && record.file == plan.reservation.file,
        open.owner@ == plan.reservation.owner.owner@,
    ensures
        ({
            let after = change_finished(view, plan, true);
            let file = file_at(after.files, plan.reservation.file);
            let told = after.state.stateids.validated(plan.next, plan.reservation.file, true, false);
            &&& after.state.stateids.validated(plan.reservation.state_id, plan.reservation.file, true, false) == Err::<
                StateIdValidation,
                StateIdValidationError,
            >(StateIdValidationError::OldStateId)
            &&& told matches Ok(StateIdValidation::Active(now))
            &&& now.file == plan.reservation.file
            &&& now.payload matches StatePayload::Open(stands)
            &&& stands.owner == open.owner
            &&& stands.pin == open.pin
            &&& if plan.narrows {
                &&& stands.access == plan.access
                &&& stands.deny == plan.deny
                &&& stands.contributions == plan.contributions
                &&& stands.confirmed == open.confirmed
                &&& share_as_open(file.shares, stands)
            } else {
                &&& stands.access == open.access
                &&& stands.deny == open.deny
                &&& stands.contributions == open.contributions
                &&& stands.confirmed
                &&& after.files == view.files
            }
        }),
{
    let after = change_finished(view, plan, true);
    let table = view.state.stateids;
    let id = plan.reservation.state_id;
    assert(plan.next.other == id.other);
    let moved = table.transitioned(id);
    assert(moved.slot_of(id.other@) == table.slot_of(id.other@));
    let changed = change_applied(view.state, plan);
    assert(changed.stateids.slot_of(id.other@) == table.slot_of(id.other@));
    assert(after.state.stateids == changed.stateids);
    if plan.narrows {
        let place = file_place(plan.reservation.file);
        let owner = plan.reservation.owner.owner;
        let before = view.files[place].shares;
        lemma_share_found(before, owner@, before.len());
        let k = share_at(before, owner@, before.len())->0;
        let shares = after.files[place].shares;
        assert(shares[k].owner@ == owner@);
    }
}

/// Locks that are had are known by the state id that their owner is answered: it is good for the file, and stands for the
/// owner and the open through which the locks are held. The file has the locks that were planned.
pub proof fn lemma_lock_stands(view: RuntimeView, plan: LockPlan, record: StateRecord, lock: ByteRangeLockState)
    requires
        lock_finish_result(view, plan, true) is Granted,
        record.payload == StatePayload::Lock(lock),
        record.file == plan.file,
        match plan.open_reservation {
            Some(_) => view.state.stateids.slots[view.state.stateids.slot_of(plan.state_id.other@)->Ok_0].state
                == SlotState::Pending(record) && record.sequence_id == plan.state_id.sequence_id,
            None => view.state.stateids.identified(plan.requested.other@) == Ok::<
                StateRecord,
                StateIdValidationError,
            >(record),
        },
        !uniform(plan.state_id.other@, 0),
        !uniform(plan.state_id.other@, 0xff),
    ensures
        ({
            let after = lock_finished(view, plan, true);
            &&& lock_finish_result(view, plan, true) == LockResult::Granted(plan.state_id)
            &&& after.state.stateids.validated(plan.state_id, plan.file, false, true) matches Ok(
                StateIdValidation::Active(now),
            )
            &&& now.payload == StatePayload::Lock(lock)
            &&& now.client == record.client
            &&& file_at(after.files, plan.file).locks == plan.locks@
            &&& file_at(after.files, plan.file).shares == file_at(view.files, plan.file).shares
        }),
{
    let after = lock_finished(view, plan, true);
    let table = view.state.stateids;
    match plan.open_reservation {
        Some(open) => {
            let changed = table.activated(plan.state_id.other@);
            assert(changed.slot_of(plan.state_id.other@) == table.slot_of(plan.state_id.other@));
            assert(after.state.stateids == changed);
        },
        None => {
            let changed = table.transitioned(plan.requested);
            assert(plan.state_id.other == plan.requested.other);
            assert(changed.slot_of(plan.state_id.other@) == table.slot_of(plan.state_id.other@));
            assert(after.state.stateids == changed);
        },
    }
}

/// Locks that are given back leave the file with the locks that were planned, and their state id with the next number; the
/// one before is old.
pub proof fn lemma_unlock_stands(view: RuntimeView, plan: UnlockPlan, record: StateRecord)
    requires
        view.files.contains_key(file_place(plan.file)),
        view.state.stateids.previewed(plan.requested) == Ok::<StateId, StateIdValidationError>(plan.state_id),
        view.state.awaits(plan.reservation),
        view.state.stateids.identified(plan.requested.other@) == Ok::<StateRecord, StateIdValidationError>(record),
        record.payload is Lock,
        record.file == plan.file,
        plan.requested.sequence_id != u32::MAX,
    ensures
        ({
            let after = unlock_finished(view, plan, true);
            &&& unlock_finish_result(view.state, plan, true) == *plan.response
            &&& file_at(after.files, plan.file).locks == plan.locks@
            &&& file_at(after.files, plan.file).shares == file_at(view.files, plan.file).shares
            &&& after.state.stateids.validated(plan.requested, plan.file, false, true) == Err::<
                StateIdValidation,
                StateIdValidationError,
            >(StateIdValidationError::OldStateId)
            &&& after.state.stateids.validated(plan.state_id, plan.file, false, true) matches Ok(
                StateIdValidation::Active(now),
            )
            &&& now.payload == record.payload
            &&& now.client == record.client
        }),
{
    let after = unlock_finished(view, plan, true);
    let table = view.state.stateids;
    let changed = table.transitioned(plan.requested);
    assert(plan.state_id.other == plan.requested.other);
    assert(changed.slot_of(plan.state_id.other@) == table.slot_of(plan.state_id.other@));
    assert(after.state.stateids == changed);
}

/// The record of a narrowed or confirmed open gives the next run the open as it is then, and takes the place of the record
/// that was there before.
pub proof fn lemma_change_recovered(plan: OpenChangePlan, reply: Seq<u8>, limits: Nfs4Limits)
    requires
        plan.access.usable(),
        plan.contributions.aggregated() == Some((plan.access, plan.deny)),
        plan.contributions.total() <= limits.max_open_contributions_per_state,
    ensures
        ({
            let changes = open_change_changes(plan, reply);
            &&& changes[0] == (ChangeView::Delete {
                key: KeyView::Open { state_token: token_of(plan.reservation.state_id) },
            })
            &&& changes[1] == (ChangeView::Put {
                key: KeyView::Open { state_token: token_of(plan.next) },
                record: changed_record(plan),
            })
            &&& changed_record(plan) matches RecordView::Open(open)
            &&& hydrated_open(open, limits) == (RecoveredOpenView {
                state_token: token_of(plan.next),
                previous_client_id: plan.reservation.owner.owner.client_id,
                owner: plan.reservation.owner.owner.owner@,
                file: plan.reservation.file,
                access: plan.access,
                deny: plan.deny,
                contributions: plan.contributions.counts@,
            })
        }),
{
    lemma_wire_round_trip(plan.access, plan.deny);
    lemma_contributions_recovered(plan.contributions.counts@, limits.max_open_contributions_per_state);
    assert(file_of(stable_of(plan.reservation.file)) == plan.reservation.file);
}

/// The record of locks that were given back is deleted; where the owner has ranges left, the next run finds exactly those,
/// under the new state id.
pub proof fn lemma_unlock_recovered(plan: UnlockPlan, reply: Seq<u8>)
    requires
        pieces_normal(owned(plan.locks@, plan.owner@, plan.locks@.len())),
        forall|i: int|
            0 <= i < owned(plan.locks@, plan.owner@, plan.locks@.len()).len() ==> piece_writable(
                #[trigger] owned(plan.locks@, plan.owner@, plan.locks@.len())[i],
            ),
    ensures
        ({
            let left = owned(plan.locks@, plan.owner@, plan.locks@.len());
            let changes = unlock_changes(plan, reply);
            &&& changes[0] == (ChangeView::Delete { key: KeyView::Lock { state_token: token_of(plan.requested) } })
            &&& left.len() == 0 ==> changes.len() == 2
            &&& left.len() > 0 ==> changes.len() == 3 && (changes[1] matches ChangeView::Put {
                key,
                record: RecordView::Lock(lock),
            } && key == (KeyView::Lock { state_token: token_of(plan.state_id) }) && ranges_sound(lock.ranges)
                && hydrated_lock(lock, token_of(plan.open_state_id)) == (RecoveredLockView {
                state_token: token_of(plan.state_id),
                previous_open_state_token: token_of(plan.open_state_id),
                previous_client_id: plan.owner.owner.client_id,
                owner: plan.owner.owner.owner@,
                file: plan.file,
                ranges: left,
            }))
        }),
{
    let left = owned(plan.locks@, plan.owner@, plan.locks@.len());
    lemma_ranges_recovered(left);
    assert(ranges_left(plan).len() == left.len());
    assert(file_of(stable_of(plan.file)) == plan.file);
}

/// A client reclaims an open that it had itself: one that was recorded under a number that it had before, for the same
/// owner, of the same file and with the same bits. It finds one wherever there is one that nobody is reclaiming.
pub proof fn lemma_reclaim_own(state: StateView, r: OpenReservation, file: RuntimeFile, found: Option<RecoveredOpen>)
    requires
        target_recovered(state, r, file, found),
        r.reclaim_previous_ids@ != Set::<u64>::empty(),
    ensures
        found matches Some(open) ==> {
            &&& r.reclaim_previous_ids@.contains(open.previous_client_id)
            &&& open.owner@ == r.owner.owner.owner@
            &&& open.file == file
            &&& open.access == r.access
            &&& open.deny == r.deny
            &&& !state.reserved_recovered_opens.contains(open.state_token@)
        },
        found is None ==> forall|token: Seq<u8>| #[trigger]
            state.recovered_opens.contains_key(token) && !state.reserved_recovered_opens.contains(
                state.recovered_opens[token].state_token@,
            ) ==> {
                ||| !r.reclaim_previous_ids@.contains(state.recovered_opens[token].previous_client_id)
                ||| state.recovered_opens[token].owner@ != r.owner.owner.owner@
                ||| state.recovered_opens[token].file != file
                ||| state.recovered_opens[token].access != r.access
                ||| state.recovered_opens[token].deny != r.deny
            },
{
    if found is None {
        assert(!open_reclaimable(state, r, file));
        assert forall|token: Seq<u8>| #[trigger]
            state.recovered_opens.contains_key(token) && !state.reserved_recovered_opens.contains(
                state.recovered_opens[token].state_token@,
            ) implies {
            ||| !r.reclaim_previous_ids@.contains(state.recovered_opens[token].previous_client_id)
            ||| state.recovered_opens[token].owner@ != r.owner.owner.owner@
            ||| state.recovered_opens[token].file != file
            ||| state.recovered_opens[token].access != r.access
            ||| state.recovered_opens[token].deny != r.deny
        } by {
            assert(!open_reclaims(state, state.recovered_opens[token], r, file));
        }
    }
}

/// An open of the run before is reclaimed once: while one request reclaims it, no other one finds it.
pub proof fn lemma_reclaim_once(
    view: RuntimeView,
    r: OpenReservation,
    file: RuntimeFile,
    open: RecoveredOpen,
    combined: ShareReservation,
    other: OpenReservation,
    other_file: RuntimeFile,
    again: RecoveredOpen,
)
    requires
        target_recovered(
            target_reserved(view, r, file, Some(open), combined).state,
            other,
            other_file,
            Some(again),
        ),
    ensures
        again.state_token@ != open.state_token@,
{
}

/// A client reclaims a lock that it had itself: through the open that it reclaimed, under a number that it had before, for
/// the same owner, of the same file, and for exactly those bytes and that access. What it has not reclaimed of those locks
/// is still there to be reclaimed, and what it has is not.
pub proof fn lemma_reclaim_own_lock(
    state: StateView,
    plan: LockPlan,
    open: Seq<u8>,
    previous: Set<u64>,
    owner: Seq<u8>,
    wish: LockWish,
)
    requires
        plan_reclaims(state, plan, open, previous, owner, wish),
        wish.reclaim,
        plan.recovered is Some,
    ensures
        ({
            let had = plan.recovered->0;
            let piece = Piece {
                access: if for_writing(wish.lock_type) {
                    LockAccess::Write
                } else {
                    LockAccess::Read
                },
                range: wish.range,
            };
            let left = match plan.remainder {
                Some(rest) => rest.ranges@,
                None => seq![],
            };
            &&& previous.contains(had.previous_client_id)
            &&& had.owner@ == owner
            &&& had.file == wish.file
            &&& state.reclaimed_open_ancestry.contains_key(open)
            &&& other_of(had.previous_open_state_token@) == state.reclaimed_open_ancestry[open]@
            &&& had.ranges@.contains(piece)
            &&& left.len() + 1 == had.ranges@.len()
            &&& forall|p: Piece| #[trigger] left.contains(p) ==> had.ranges@.contains(p)
            &&& forall|p: Piece| #[trigger] had.ranges@.contains(p) ==> p == piece || left.contains(p)
            &&& (plan.remainder matches Some(rest) ==> rest@ == (RecoveredLockView { ranges: left, ..had@ }))
        }),
{
    let had = plan.recovered->0;
    let piece = wished(wish);
    let ranges = had.ranges@;
    ranges.index_of_first_ensures(piece);
    let first = ranges.index_of_first(piece)->0;
    let left = ranges.remove(first);
    assert forall|p: Piece| #[trigger] left.contains(p) implies ranges.contains(p) by {
        let k = left.index_of(p);
        if k < first {
            assert(ranges[k] == p);
        } else {
            assert(ranges[k + 1] == p);
        }
    }
    assert forall|p: Piece| #[trigger] ranges.contains(p) implies p == piece || left.contains(p) by {
        let k = ranges.index_of(p);
        if k < first {
            assert(left[k] == p);
        } else if k > first {
            assert(left[k - 1] == p);
        }
    }
}

/// No lock is granted for a file for which another client may be granted a delegation that it would stand against: one to
/// write, or any where the lock is for writing.
pub proof fn lemma_lock_spares_delegations(
    view: RuntimeView,
    client: u64,
    principal: PrincipalView,
    wish: LockWish,
    now: u64,
    id: u64,
)
    requires
        lock_admitted(view, client, principal, wish, None, now) is Ok,
        view.state.delegation_eligibility.contains_key(id),
        view.state.delegation_eligibility[id].file == wish.file,
        view.state.delegation_eligibility[id].client_id != client,
    ensures
        !for_writing(wish.lock_type),
        view.state.delegation_eligibility[id].kind == DelegationKind::Read,
{
    assert(!grant_against(
        view.state.delegation_eligibility[id],
        wish.file,
        Some(client),
        lock_kind(wish.lock_type),
        false,
    ));
}

} // verus!
