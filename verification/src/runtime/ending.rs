//! What it means that an open is closed or narrowed, or that a lock owner is forgotten: nothing is taken away that is
//! still needed, and nothing is left behind.

use vstd::prelude::*;

use crate::files::{delegation_safe, file_at};
use crate::identity::PrincipalView;
use crate::locks::{locks_open, open_needs, owner_holds, HeldLock};
use crate::protocol::{
    file_place, lemma_file_place, owner_file_place, DelegationKind, LockAccess, NfsStatus, OwnerKey, RuntimeFile,
};
use crate::registry::{place_views, StateView};
use crate::runtime::agreement::{file_agrees, files_agree};
use crate::runtime::close::{
    close_blocked, close_finished, close_ready, close_refused, derived, lemma_links_closed, ClosePlan,
};
use crate::runtime::io::{access_against, grant_refused, grants_rival};
use crate::runtime::open::OpenTargetReservation;
use crate::runtime::openstate::{
    change_finished, downgrade_refused, shares_narrowed, OpenChangePlan, OpenStateReservation,
};
use crate::runtime::release::{holds_any, release_told, ReleaseLockOwnerDecision};
use crate::runtime::sharing::{lemma_aggregate, lemma_wire_flags};
use crate::runtime::RuntimeView;
use crate::share::{
    lemma_share_found, narrowed_counts, share_at, share_closed, wire_access, wire_deny, ShareAccess, ShareDeny,
};
use crate::stateid::{SlotState, StateDisposition, StateIdValidationError, StateRecord, TableView};

verus! {

/// Some lock of the file, for reading or for writing, is held through the open.
pub open spec fn locked_through(locks: Seq<HeldLock>, open: Seq<u8>) -> bool {
    exists|i: int| 0 <= i < locks.len() && (#[trigger] locks[i]).owner.open@ == open
}

/// An open through which any lock of the file is held, be it for reading or for writing, is not closed: the request is
/// refused when it is prepared, and no plan to close it is ready.
pub proof fn lemma_close_needs_no_locks(view: RuntimeView, reservation: OpenStateReservation, plan: ClosePlan)
    requires
        locked_through(file_at(view.files, reservation.file).locks, reservation.state_id.other@),
        plan.reservation == reservation,
    ensures
        close_blocked(view, reservation),
        close_refused(view, reservation) is Some,
        !close_ready(view, plan),
{
    let locks = file_at(view.files, reservation.file).locks;
    let i = choose|i: int| 0 <= i < locks.len() && (#[trigger] locks[i]).owner.open@ == reservation.state_id.other@;
    assert(locks_open(locks, reservation.state_id.other@));
}

/// A request to close an open is refused for its locks only where some lock of the file is held through it.
pub proof fn lemma_close_held_back(view: RuntimeView, reservation: OpenStateReservation)
    ensures
        close_blocked(view, reservation) <==> locked_through(
            file_at(view.files, reservation.file).locks,
            reservation.state_id.other@,
        ),
        close_refused(view, reservation) == Some(NfsStatus::LocksHeld) ==> locked_through(
            file_at(view.files, reservation.file).locks,
            reservation.state_id.other@,
        ),
{
    let locks = file_at(view.files, reservation.file).locks;
    if locked_through(locks, reservation.state_id.other@) {
        let i = choose|i: int| 0 <= i < locks.len() && (#[trigger] locks[i]).owner.open@ == reservation.state_id.other@;
        assert(locks_open(locks, reservation.state_id.other@));
    }
}

/// Ending states leaves no state id alive that was not, and what has ended stays so.
proof fn lemma_retired_stays(table: TableView, ended: Seq<u8>, other: Seq<u8>)
    requires
        table.identified(other) == Err::<StateRecord, StateIdValidationError>(StateIdValidationError::BadStateId),
    ensures
        table.retired(ended, StateDisposition::Closed).identified(other) == Err::<StateRecord, StateIdValidationError>(
            StateIdValidationError::BadStateId,
        ),
{
    let after = table.retired(ended, StateDisposition::Closed);
    assert(after.slot_of(other) == table.slot_of(other));
}

/// The locks that end with their open leave no state id alive that was not, and are not found any more.
proof fn lemma_links_gone(state: StateView, places: Seq<Seq<u8>>, n: nat, other: Seq<u8>)
    requires
        n <= places.len(),
        state.stateids.identified(other) == Err::<StateRecord, StateIdValidationError>(StateIdValidationError::BadStateId),
    ensures
        state.links_closed(places, n).stateids.identified(other) == Err::<StateRecord, StateIdValidationError>(
            StateIdValidationError::BadStateId,
        ),
        forall|place: Seq<u8>| #[trigger]
            state.links_closed(places, n).lock_by_state.contains_key(place) <==> state.lock_by_state.contains_key(place)
                && !places.take(n as int).contains(place),
        forall|place: Seq<u8>| #[trigger]
            state.links_closed(places, n).lock_by_state.contains_key(place) ==> state.links_closed(
                places,
                n,
            ).lock_by_state[place] == state.lock_by_state[place],
    decreases n,
{
    if n > 0 {
        lemma_links_gone(state, places, (n - 1) as nat, other);
        let before = state.links_closed(places, (n - 1) as nat);
        assert(places.take(n as int) =~= places.take(n - 1).push(places[n - 1]));
        let gone = places[n - 1];
        let first = places.take(n - 1);
        let more = places.take(n as int);
        assert forall|place: Seq<u8>| #[trigger] more.contains(place) <==> first.contains(place) || place == gone by {
            if place == gone {
                assert(more[n - 1] == gone);
            }
            if first.contains(place) {
                let k = first.index_of(place);
                assert(more[k] == place);
            }
        }
        if before.lock_by_state.contains_key(gone) {
            lemma_retired_stays(before.stateids, before.lock_by_state[gone].state_id.other@, other);
        }
    } else {
        assert(places.take(0).len() == 0);
    }
}

/// Once an open is closed, no lock of its file names it, its owner has no share of the file, its state id is a bad one,
/// and no lock state is found through it. The shares of the others, the locks, and all other files are as they were.
pub proof fn lemma_close_leaves_nothing(view: RuntimeView, plan: ClosePlan, other: RuntimeFile)
    requires
        files_agree(view.files),
        close_ready(view, plan),
    ensures
        ({
            let r = plan.reservation;
            let after = close_finished(view, plan, true);
            let file = file_at(view.files, r.file);
            let left = file_at(after.files, r.file);
            &&& !locked_through(left.locks, r.state_id.other@)
            &&& left.locks == file.locks
            &&& left.pending_opens == file.pending_opens
            &&& forall|i: int| 0 <= i < left.shares.len() ==> (#[trigger] left.shares[i]).owner@ != r.owner.owner@
            &&& forall|i: int|
                0 <= i < file.shares.len() && (#[trigger] file.shares[i]).owner@ != r.owner.owner@ ==> left.shares.contains(
                    file.shares[i],
                )
            &&& other != r.file ==> file_at(after.files, other) == file_at(view.files, other)
            &&& after.state.stateids.identified(r.state_id.other@) == Err::<StateRecord, StateIdValidationError>(
                StateIdValidationError::BadStateId,
            )
            &&& forall|place: Seq<u8>| !#[trigger] derived(after.state, place, r.file, r.state_id.other@)
            &&& !after.state.open_by_owner_file.contains_key(owner_file_place(r.owner.owner@, r.file))
        }),
{
    let r = plan.reservation;
    let owner = r.owner.owner@;
    let place = file_place(r.file);
    let file = view.files[place];
    let after = close_finished(view, plan, true);
    let places = place_views(plan.derived@);
    lemma_close_held_back(view, r);
    lemma_file_place(other, r.file);
    assert(file_agrees(file));
    lemma_share_found(file.shares, owner, file.shares.len());
    let gone = share_at(file.shares, owner, file.shares.len())->0;
    let kept = share_closed(file.shares, owner);
    assert forall|i: int| 0 <= i < kept.len() implies (#[trigger] kept[i]).owner@ != owner by {
        let j = if i < gone {
            i
        } else {
            i + 1
        };
        assert(kept[i] == file.shares[j]);
        assert(file.shares[j].owner@ != file.shares[gone].owner@);
    }
    assert forall|i: int| 0 <= i < file.shares.len() && (#[trigger] file.shares[i]).owner@
        != owner implies kept.contains(file.shares[i]) by {
        let j = if i < gone {
            i
        } else {
            i - 1
        };
        assert(kept[j] == file.shares[i]);
    }
    let state = view.state;
    let moved = state.stateids.transitioned(r.state_id);
    let ended = StateView {
        stateids: moved.retired(plan.next.other@, StateDisposition::Closed),
        open_by_owner_file: state.open_by_owner_file.remove(owner_file_place(owner, r.file)),
        ..state
    };
    assert(plan.next.other == r.state_id.other);
    let at = state.stateids.slot_of(r.state_id.other@)->Ok_0;
    assert(moved.slot_of(r.state_id.other@) == state.stateids.slot_of(r.state_id.other@));
    assert(ended.stateids.slot_of(r.state_id.other@) == state.stateids.slot_of(r.state_id.other@));
    assert(ended.stateids.slots[at].state == SlotState::Retired(StateDisposition::Closed));
    lemma_links_closed(ended, places, places.len());
    lemma_links_gone(ended, places, places.len(), r.state_id.other@);
    assert(places.take(places.len() as int) =~= places);
    assert forall|at: Seq<u8>| !#[trigger] derived(after.state, at, r.file, r.state_id.other@) by {
        if derived(after.state, at, r.file, r.state_id.other@) {
            assert(ended.links_closed(places, places.len()).lock_by_state.contains_key(at));
            assert(derived(state, at, r.file, r.state_id.other@));
            assert(places.contains(at));
        }
    }
}

/// What stays of the opens of an owner once it narrows them: those whose wire numbers ask for nothing that goes.
pub proof fn lemma_narrowed_kept(counts: Seq<u32>, access: ShareAccess, deny: ShareDeny, i: int)
    requires
        counts.len() == 12,
        0 <= i < 12,
    ensures
        narrowed_counts(counts, access, deny).len() == 12,
        narrowed_counts(counts, access, deny)[i] == if (i / 4 != 1 ==> access.read) && (i / 4 != 0 ==> access.write) && (i
            % 4 == 1 || i % 4 == 3 ==> deny.read) && (i % 4 >= 2 ==> deny.write) {
            counts[i]
        } else {
            0
        },
{
}

/// An open is narrowed to bits that its owner has, and only where no lock that is held through it needs what goes: a lock
/// for reading keeps the right to read, a lock for writing the right to write.
pub proof fn lemma_narrowing_judged(
    view: RuntimeView,
    reservation: OpenStateReservation,
    share_access: u32,
    share_deny: u32,
)
    requires
        downgrade_refused(view, reservation, wire_access(share_access), wire_deny(share_deny)) is None,
    ensures
        ({
            let file = file_at(view.files, reservation.file);
            &&& 1 <= share_access <= 3
            &&& share_deny <= 3
            &&& exists|k: int|
                0 <= k < file.shares.len() && (#[trigger] file.shares[k]).owner@ == reservation.owner.owner@ && {
                    let counts = file.shares[k].contributions.counts@;
                    &&& share_access & 1 != 0 ==> exists|i: int| 0 <= i < 12 && #[trigger] counts[i] != 0 && i / 4 != 1
                    &&& share_access & 2 != 0 ==> exists|i: int| 0 <= i < 12 && #[trigger] counts[i] != 0 && i / 4 != 0
                    &&& share_deny & 1 != 0 ==> exists|i: int| 0 <= i < 12 && #[trigger] counts[i] != 0 && i % 4 % 2 == 1
                    &&& share_deny & 2 != 0 ==> exists|i: int| 0 <= i < 12 && #[trigger] counts[i] != 0 && i % 4 >= 2
                }
            &&& forall|i: int|
                0 <= i < file.locks.len() && (#[trigger] file.locks[i]).owner.open@ == reservation.state_id.other@
                    ==> if file.locks[i].access == LockAccess::Write {
                    share_access & 2 != 0
                } else {
                    share_access & 1 != 0
                }
        }),
{
    let file = file_at(view.files, reservation.file);
    lemma_wire_flags(share_access);
    lemma_wire_flags(share_deny);
    lemma_share_found(file.shares, reservation.owner.owner@, file.shares.len());
    let k = share_at(file.shares, reservation.owner.owner@, file.shares.len())->0;
    let counts = file.shares[k].contributions.counts@;
    let access = wire_access(share_access)->0;
    let deny = wire_deny(share_deny)->0;
    let kept = narrowed_counts(counts, access, deny);
    assert forall|i: int| 0 <= i < 12 && #[trigger] kept[i] != 0 implies counts[i] != 0 by {
        lemma_narrowed_kept(counts, access, deny, i);
    }
    lemma_aggregate(kept);
    assert(file.shares[k].owner@ == reservation.owner.owner@);
    assert forall|i: int|
        0 <= i < file.locks.len() && (#[trigger] file.locks[i]).owner.open@
            == reservation.state_id.other@ implies if file.locks[i].access == LockAccess::Write {
        share_access & 2 != 0
    } else {
        share_access & 1 != 0
    } by {
        assert(open_needs(file.locks, reservation.state_id.other@, file.locks[i].access));
    }
}

/// An open that is narrowed has exactly the bits that were asked for; the shares of the others, and the locks, are as they
/// were.
pub proof fn lemma_narrowed_exactly(view: RuntimeView, plan: OpenChangePlan)
    requires
        files_agree(view.files),
        plan.narrows,
        shares_narrowed(view, plan) is Some,
    ensures
        ({
            let r = plan.reservation;
            let before = file_at(view.files, r.file);
            let after = file_at(change_finished(view, plan, true).files, r.file);
            &&& after.locks == before.locks
            &&& after.shares.len() == before.shares.len()
            &&& forall|i: int|
                0 <= i < after.shares.len() ==> if (#[trigger] before.shares[i]).owner@ == r.owner.owner@ {
                    after.shares[i].owner@ == r.owner.owner@ && after.shares[i].access == plan.access && after.shares[i].deny
                        == plan.deny
                } else {
                    after.shares[i] == before.shares[i]
                }
        }),
{
    let r = plan.reservation;
    let before = file_at(view.files, r.file);
    assert(file_agrees(before));
    lemma_share_found(before.shares, r.owner.owner@, before.shares.len());
    let k = share_at(before.shares, r.owner.owner@, before.shares.len())->0;
    assert forall|i: int| 0 <= i < before.shares.len() && (#[trigger] before.shares[i]).owner@
        == r.owner.owner@ implies i == k by {
        assert(i != k ==> before.shares[i].owner@ != before.shares[k].owner@);
    }
}

/// The owner holds a lock of some file, for reading or for writing.
pub open spec fn lock_held(view: RuntimeView, owner: (u64, Seq<u8>), place: Seq<u8>, i: int) -> bool {
    view.files.contains_key(place) && 0 <= i < view.files[place].locks.len() && view.files[place].locks[i].owner.owner@
        == owner
}

/// A lock owner is forgotten only where it holds no byte of any file: while it holds one, for reading or for writing, the
/// answer is `LocksHeld`.
pub proof fn lemma_release_judged(view: RuntimeView, owner: OwnerKey, principal: PrincipalView, now: u64)
    requires
        owner.owner@.len() <= view.limits.max_client_owner_size,
        view.clients.touch_refused(owner.client_id, principal, NfsStatus::StaleClientId, now) is None,
    ensures
        release_told(view, owner, principal, now) == if exists|place: Seq<u8>, i: int| #[trigger]
            lock_held(view, owner@, place, i) {
            ReleaseLockOwnerDecision::Error { status: NfsStatus::LocksHeld, client_id: Some(owner.client_id) }
        } else {
            ReleaseLockOwnerDecision::Execute { client_id: owner.client_id }
        },
{
    if exists|place: Seq<u8>, i: int| #[trigger] lock_held(view, owner@, place, i) {
        let (place, i) = choose|place: Seq<u8>, i: int| #[trigger] lock_held(view, owner@, place, i);
        assert(view.files[place].locks[i].owner.owner@ == owner@);
        assert(owner_holds(view.files[place].locks, owner@));
    } else if holds_any(view.files, owner@) {
        let place = choose|place: Seq<u8>| #[trigger]
            view.files.contains_key(place) && owner_holds(view.files[place].locks, owner@);
        let i = choose|i: int|
            0 <= i < view.files[place].locks.len() && (#[trigger] view.files[place].locks[i]).owner.owner@ == owner@;
        assert(lock_held(view, owner@, place, i));
    }
}

/// No delegation is granted for a file that another client has open, is opening or has locked. One to read is granted for
/// no file that the client itself has open, is opening or has locked to write.
pub proof fn lemma_grant_alone(view: RuntimeView, target: OpenTargetReservation, client: u64, kind: DelegationKind)
    requires
        grant_refused(view, target, client, kind) is None,
    ensures
        ({
            let file = file_at(view.files, target.file);
            &&& target.owner.owner.client_id == client
            &&& forall|i: int|
                0 <= i < file.shares.len() ==> (#[trigger] file.shares[i]).owner.client_id == client && (kind
                    == DelegationKind::Read ==> !file.shares[i].access.write)
            &&& forall|i: int|
                0 <= i < file.pending_opens.len() ==> (#[trigger] file.pending_opens[i]).owner.client_id == client && (kind
                    == DelegationKind::Read ==> !file.pending_opens[i].access.write)
            &&& forall|i: int|
                0 <= i < file.locks.len() ==> (#[trigger] file.locks[i]).owner.owner.client_id == client && (kind
                    == DelegationKind::Read ==> file.locks[i].access == LockAccess::Read)
            &&& forall|id: u64| #[trigger]
                view.state.delegation_access.contains_key(id) && view.state.delegation_access[id].file == target.file
                    && view.state.delegation_access[id].client_id != Some(client) ==> {
                    &&& !view.state.delegation_access[id].truncate
                    &&& kind == DelegationKind::Read
                    &&& view.state.delegation_access[id].access == DelegationKind::Read
                }
            &&& forall|id: u64| #[trigger]
                view.state.delegation_eligibility.contains_key(id) && view.state.delegation_eligibility[id].file
                    == target.file ==> {
                    &&& view.state.delegation_eligibility[id].client_id != client
                    &&& kind == DelegationKind::Read
                    &&& view.state.delegation_eligibility[id].kind == DelegationKind::Read
                }
        }),
{
    let file = file_at(view.files, target.file);
    assert(delegation_safe(file, client, kind == DelegationKind::Write));
    assert forall|id: u64| #[trigger]
        view.state.delegation_access.contains_key(id) && view.state.delegation_access[id].file == target.file
            && view.state.delegation_access[id].client_id != Some(client) implies {
        &&& !view.state.delegation_access[id].truncate
        &&& kind == DelegationKind::Read
        &&& view.state.delegation_access[id].access == DelegationKind::Read
    } by {
        assert(!access_against(view.state.delegation_access[id], target.file, client, kind));
    }
    assert forall|id: u64| #[trigger]
        view.state.delegation_eligibility.contains_key(id) && view.state.delegation_eligibility[id].file
            == target.file implies {
        &&& view.state.delegation_eligibility[id].client_id != client
        &&& kind == DelegationKind::Read
        &&& view.state.delegation_eligibility[id].kind == DelegationKind::Read
    } by {
        assert(!grants_rival(view.state.delegation_eligibility[id], target.file, client, kind));
    }
}

} // verus!
