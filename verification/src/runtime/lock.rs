//! Byte-range locks.

use std::sync::Arc;

use vstd::prelude::*;

use crate::bytes::{array_equal, bytes_equal, copy_bytes};
use crate::files::{file_at, FileView};
use crate::identity::{Principal, PrincipalView};
use crate::idlist::IdList;
use crate::journal::{ChangeView, PersistBatch};
use crate::locks::{
    conflict_at, denial, denied, lock, locks_with, owned, stable_lock_ranges, stable_pieces, stable_ranges, HeldLock,
    LockRange, Piece,
};
use crate::owner::{OwnerSequence, SequenceDecision};
use crate::protocol::{
    access_of, consumes_sequence, delegation_kind_for_lock, file_place, lock_access, lock_key, lock_kind, lock_place,
    lock_status, no_effect, other_of, sequence_status_consumed, share, stable_of, state_other, state_token, token_of,
    LockResult, LockStateOwner, LockType, Nfs4Limits, NfsStatus, OwnerKey, OwnerRequestDigest, ReplayEffect, ResOp,
    RuntimeFile, StateId,
};
use crate::record::{JournalKey, JournalRecord, KeyView, LockRecord, LockView, RecordView, ReplayOwnerKind};
use crate::recovery::{RecoveredLock, RecoveredLockView};
use crate::registry::{
    count_client, of_client, place_of_owner, replay_key_of, replay_record_of, LockLink, Owner, OwnerReservation,
    ReservedOwnerKind, StateRegistry, StateView,
};
use crate::runtime::{access_matches, Nfs4Runtime, RuntimeView};
use crate::share::ShareAccess;
use crate::snapshot::{owner_key, owner_map_key};
use crate::stateid::{
    map_stateid_error, stateid_status, ByteRangeLockState, StateDisposition, StateIdValidationError, StatePayload,
    StateRecord,
};

verus! {

/// The request of an owner that has no locks yet through an open.
pub struct OpenToLockOwner {
    pub open_sequence_id: u32,
    pub open_state_id: StateId,
    pub lock_sequence_id: u32,
    pub lock_owner: OwnerKey,
}

/// The request of an owner that has had locks through an open.
#[derive(Clone, Copy, Debug)]
pub struct ExistingLockOwner {
    pub lock_state_id: StateId,
    pub lock_sequence_id: u32,
}

/// Who asks for a lock.
pub enum Locker {
    New(OpenToLockOwner),
    Existing(ExistingLockOwner),
}

/// A request for a lock.
pub struct LockArgs {
    pub lock_type: LockType,
    pub reclaim: bool,
    pub offset: u64,
    pub length: u64,
    pub locker: Locker,
}

/// A request to give a lock back.
#[derive(Clone, Copy, Debug)]
pub struct LockUnlockArgs {
    pub lock_type: LockType,
    pub sequence_id: u32,
    pub lock_state_id: StateId,
    pub offset: u64,
    pub length: u64,
}

/// A question for a lock.
pub struct LockTestArgs {
    pub lock_type: LockType,
    pub offset: u64,
    pub length: u64,
    pub owner: OwnerKey,
}

/// What is asked of a file: the kind of the lock, whether it was held before the restart, the bytes and the file.
#[derive(Clone, Copy, Debug)]
pub struct LockWish {
    pub lock_type: LockType,
    pub reclaim: bool,
    pub range: LockRange,
    pub file: RuntimeFile,
}

/// What is answered to a request for a lock, and what is done for it.
pub enum LockVerdict {
    /// The request is refused, and its places in the sequences are given back.
    Refused(LockResult),
    /// The request is refused, and its owners keep the answer.
    Recorded(LockResult),
    /// The lock can be had.
    Planned,
}

/// The pieces that a wish is for.
pub open spec fn wished(wish: LockWish) -> Piece {
    Piece { access: access_of(wish.lock_type), range: wish.range }
}

/// The locks of the run before hold what is wished for, under one of the client's numbers and through that open.
pub open spec fn reclaims(
    recovered: RecoveredLock,
    open: Seq<u8>,
    previous: Set<u64>,
    owner: Seq<u8>,
    wish: LockWish,
) -> bool {
    &&& previous.contains(recovered.previous_client_id)
    &&& other_of(recovered.previous_open_state_token@) == open
    &&& recovered.owner@ == owner
    &&& recovered.file == wish.file
    &&& recovered.ranges@.contains(wished(wish))
}

/// Some locks of the run before hold what is wished for.
pub open spec fn reclaimable(
    state: StateView,
    open: Seq<u8>,
    previous: Set<u64>,
    owner: Seq<u8>,
    wish: LockWish,
) -> bool {
    state.reclaimed_open_ancestry.contains_key(open) && exists|token: Seq<u8>| #[trigger]
        state.recovered_locks.contains_key(token) && reclaims(
            state.recovered_locks[token],
            state.reclaimed_open_ancestry[open]@,
            previous,
            owner,
            wish,
        )
}

/// The locks of the run before that are reclaimed.
pub open spec fn reclaim_found(
    state: StateView,
    open: Seq<u8>,
    previous: Set<u64>,
    owner: Seq<u8>,
    wish: LockWish,
    found: Option<RecoveredLock>,
) -> bool {
    match found {
        Some(recovered) => {
            &&& wish.reclaim
            &&& state.reclaimed_open_ancestry.contains_key(open)
            &&& exists|token: Seq<u8>| #[trigger]
                state.recovered_locks.contains_key(token) && state.recovered_locks[token] == recovered
            &&& reclaims(recovered, state.reclaimed_open_ancestry[open]@, previous, owner, wish)
        },
        None => !wish.reclaim || !reclaimable(state, open, previous, owner, wish),
    }
}

/// What is left of the locks of the run before once a piece is reclaimed.
pub open spec fn remainder_of(recovered: RecoveredLock, piece: Piece, remainder: Option<RecoveredLock>) -> bool {
    let left = recovered.ranges@.remove(recovered.ranges@.index_of_first(piece)->0);
    match remainder {
        Some(rest) => left.len() > 0 && rest@ == (RecoveredLockView { ranges: left, ..recovered@ }),
        None => left.len() == 0,
    }
}

/// Whether a piece is in a list.
fn has_piece(pieces: &Vec<Piece>, piece: Piece) -> (found: bool)
    ensures
        found == pieces@.contains(piece),
{
    let mut i: usize = 0;
    while i < pieces.len()
        invariant
            i <= pieces@.len(),
            forall|j: int| 0 <= j < i ==> pieces@[j] != piece,
        decreases pieces@.len() - i,
    {
        if pieces[i] == piece {
            return true;
        }
        i += 1;
    }
    false
}

/// Looks for the locks of the run before that hold what is wished for.
fn find_reclaimable(
    state: &StateRegistry,
    open: &[u8; 12],
    previous: &IdList,
    owner: &OwnerKey,
    wish: LockWish,
) -> (found: Option<RecoveredLock>)
    ensures
        reclaim_found(state@, open@, previous@, owner.owner@, wish, found),
{
    if !wish.reclaim {
        return None;
    }
    let ancestor = match state.reclaimed_open_ancestry.get(open.as_slice()) {
        Some(ancestor) => *ancestor,
        None => {
            return None;
        },
    };
    let piece = Piece { access: lock_access(wish.lock_type), range: wish.range };
    let locks = &state.recovered_locks;
    locks.order_known();
    let ghost keys = locks.keys();
    let total = locks.len();
    let mut i: usize = 0;
    while i < total
        invariant
            i <= total,
            total == keys.len(),
            keys == locks.keys(),
            locks@ == state@.recovered_locks,
            keys.len() == locks.values().len(),
            wish.reclaim,
            piece == wished(wish),
            state@.reclaimed_open_ancestry.contains_key(open@),
            state@.reclaimed_open_ancestry[open@] == ancestor,
            forall|j: int| 0 <= j < keys.len() ==> locks@.contains_key(#[trigger] keys[j]),
            forall|j: int| 0 <= j < keys.len() ==> locks@[#[trigger] keys[j]] == locks.values()[j],
            forall|j: int|
                0 <= j < i ==> !reclaims(locks@[#[trigger] keys[j]], ancestor@, previous@, owner.owner@, wish),
        decreases total - i,
    {
        let candidate = locks.value_at(i);
        assert(locks@[keys[i as int]] == *candidate);
        let other = state_other(candidate.previous_open_state_token);
        if previous.contains(candidate.previous_client_id) && array_equal(&other, &ancestor) && bytes_equal(
            candidate.owner.as_slice(),
            owner.owner.as_slice(),
        ) && candidate.file == wish.file && has_piece(&candidate.ranges, piece) {
            assert(state@.recovered_locks.contains_key(keys[i as int]));
            return Some(candidate.copy());
        }
        i += 1;
    }
    proof {
        assert forall|token: Seq<u8>| #[trigger] state@.recovered_locks.contains_key(token) implies !reclaims(
            state@.recovered_locks[token],
            ancestor@,
            previous@,
            owner.owner@,
            wish,
        ) by {
            assert(keys.contains(token));
        }
    }
    None
}

/// What is left of the locks of the run before once a piece is reclaimed.
fn recovered_lock_remainder(recovered: &RecoveredLock, piece: Piece) -> (remainder: Option<RecoveredLock>)
    requires
        recovered.ranges@.contains(piece),
    ensures
        remainder_of(*recovered, piece, remainder),
{
    let mut left: Vec<Piece> = Vec::new();
    let mut i: usize = 0;
    let mut found = false;
    let ghost first = recovered.ranges@.index_of_first(piece)->0;
    proof {
        recovered.ranges@.index_of_first_ensures(piece);
    }
    while i < recovered.ranges.len()
        invariant
            i <= recovered.ranges@.len(),
            0 <= first < recovered.ranges@.len(),
            recovered.ranges@[first] == piece,
            forall|j: int| 0 <= j < first ==> recovered.ranges@[j] != piece,
            found == (i > first),
            left@ =~= if i > first {
                recovered.ranges@.take(first) + recovered.ranges@.subrange(first + 1, i as int)
            } else {
                recovered.ranges@.take(i as int)
            },
        decreases recovered.ranges@.len() - i,
    {
        if !found && recovered.ranges[i] == piece {
            found = true;
        } else {
            left.push(recovered.ranges[i]);
        }
        i += 1;
    }
    assert(left@ =~= recovered.ranges@.remove(first));
    if left.len() == 0 {
        None
    } else {
        let rest = RecoveredLock {
            state_token: recovered.state_token,
            previous_open_state_token: recovered.previous_open_state_token,
            previous_client_id: recovered.previous_client_id,
            owner: share(&recovered.owner),
            file: recovered.file,
            ranges: Arc::new(left),
        };
        assert(rest@ =~= (RecoveredLockView { ranges: left@, ..recovered@ }));
        Some(rest)
    }
}

/// The record of locks of the run before.
pub open spec fn stable_recovered(recovered: RecoveredLock) -> RecordView {
    RecordView::Lock(
        LockView {
            state_token: recovered.state_token@,
            open_state_token: recovered.previous_open_state_token@,
            client_id: recovered.previous_client_id,
            owner: recovered.owner@,
            object: stable_of(recovered.file),
            ranges: stable_ranges(recovered.ranges@),
        },
    )
}

/// The record of locks of the run before.
fn stable_recovered_lock(recovered: &RecoveredLock) -> (record: JournalRecord)
    ensures
        record@ == stable_recovered(*recovered),
{
    let record = JournalRecord::Lock(
        LockRecord {
            state_token: recovered.state_token,
            open_state_token: recovered.previous_open_state_token,
            client_id: recovered.previous_client_id,
            owner: copy_bytes(recovered.owner.as_slice()),
            object: recovered.file.stable(),
            ranges: stable_pieces(&recovered.ranges),
        },
    );
    assert(record@ =~= stable_recovered(*recovered));
    record
}

/// The key of the last reply to the owner of locks of the run before.
pub open spec fn recovered_replay_key(recovered: RecoveredLock) -> KeyView {
    KeyView::Replay {
        client_id: recovered.previous_client_id,
        owner_kind: ReplayOwnerKind::Lock,
        owner: recovered.owner@,
    }
}

/// What a reclaimed lock changes in the journal.
pub open spec fn reclaim_changes(recovered: Option<RecoveredLock>, remainder: Option<RecoveredLock>) -> Seq<ChangeView> {
    match recovered {
        None => seq![],
        Some(r) => {
            let gone = seq![ChangeView::Delete { key: KeyView::Lock { state_token: r.state_token@ } }];
            let kept = match remainder {
                Some(rest) => gone.push(
                    ChangeView::Put {
                        key: KeyView::Lock { state_token: r.state_token@ },
                        record: stable_recovered(rest),
                    },
                ),
                None => gone,
            };
            kept.push(ChangeView::Delete { key: recovered_replay_key(r) })
        },
    }
}

/// The registry once a lock of the run before is reclaimed.
pub open spec fn reclaimed(
    state: StateView,
    recovered: Option<RecoveredLock>,
    remainder: Option<RecoveredLock>,
) -> StateView {
    match recovered {
        None => state,
        Some(r) => StateView {
            recovered_locks: match remainder {
                Some(rest) => state.recovered_locks.insert(r.state_token@, rest),
                None => state.recovered_locks.remove(r.state_token@),
            },
            recovered_replays: state.recovered_replays.remove(
                owner_key(r.previous_client_id, ReplayOwnerKind::Lock, r.owner@),
            ),
            recovered_cleanup_keys: match remainder {
                Some(_) => state.recovered_cleanup_keys,
                None => state.recovered_cleanup_keys.remove(KeyView::Lock { state_token: r.state_token@ }),
            }.remove(recovered_replay_key(r)),
            ..state
        },
    }
}

/// The batch with what a reclaimed lock changes.
fn append_reclaim(batch: PersistBatch, recovered: &Option<RecoveredLock>, remainder: &Option<RecoveredLock>) -> (after:
    PersistBatch)
    ensures
        after@ == batch@ + reclaim_changes(*recovered, *remainder),
{
    match recovered {
        None => {
            assert(batch@ + reclaim_changes(*recovered, *remainder) =~= batch@);
            batch
        },
        Some(r) => {
            let ghost before = batch@;
            let batch = batch.delete(JournalKey::Lock { state_token: r.state_token });
            let batch = match remainder {
                Some(rest) => batch.put(JournalKey::Lock { state_token: r.state_token }, stable_recovered_lock(rest)),
                None => batch,
            };
            let batch = batch.delete(
                JournalKey::Replay {
                    client_id: r.previous_client_id,
                    owner_kind: ReplayOwnerKind::Lock,
                    owner: copy_bytes(r.owner.as_slice()),
                },
            );
            assert(batch@ =~= before + reclaim_changes(*recovered, *remainder));
            batch
        },
    }
}

impl StateRegistry {
    /// Takes note that a lock of the run before is reclaimed.
    fn finish_reclaim(&mut self, recovered: Option<RecoveredLock>, remainder: Option<RecoveredLock>)
        ensures
            final(self)@ == reclaimed(old(self)@, recovered, remainder),
    {
        if let Some(r) = recovered {
            match remainder {
                Some(rest) => {
                    let _ = self.recovered_locks.insert(copy_bytes(r.state_token.as_slice()), rest);
                },
                None => {
                    let _ = self.recovered_locks.remove(r.state_token.as_slice());
                    self.recovered_cleanup_keys.remove(&JournalKey::Lock { state_token: r.state_token });
                },
            }
            let key = owner_map_key(r.previous_client_id, ReplayOwnerKind::Lock, r.owner.as_slice());
            let _ = self.recovered_replays.remove(key.as_slice());
            self.recovered_cleanup_keys.remove(
                &JournalKey::Replay {
                    client_id: r.previous_client_id,
                    owner_kind: ReplayOwnerKind::Lock,
                    owner: copy_bytes(r.owner.as_slice()),
                },
            );
        }
    }
}

/// A lock that can be had and is not had yet.
pub struct LockPlan {
    /// The place of the request in the sequence of the owner of the open, where the owner has no locks yet.
    pub open_reservation: Option<OwnerReservation>,
    pub reservation: OwnerReservation,
    /// The state id of the request; where the owner has no locks yet, that of the answer.
    pub requested: StateId,
    /// The state id of the answer.
    pub state_id: StateId,
    pub owner: LockStateOwner,
    pub open_state_id: StateId,
    pub file: RuntimeFile,
    /// The locks of the file once the lock is had.
    pub locks: Vec<HeldLock>,
    pub response: Arc<ResOp>,
    pub recovered: Option<RecoveredLock>,
    pub remainder: Option<RecoveredLock>,
    pub access: Option<u64>,
}

/// A refusal that owners are to keep.
pub struct LockErrorPlan {
    pub open_reservation: Option<OwnerReservation>,
    pub reservation: OwnerReservation,
    pub result: LockResult,
    pub response: Arc<ResOp>,
    pub access: Option<u64>,
}

/// What is to be done for a request for a lock.
pub enum LockStep {
    Done(LockResult),
    Record(LockErrorPlan),
    Grant(LockPlan),
}

/// The record of the locks of a plan.
pub open spec fn planned_record(plan: LockPlan) -> RecordView {
    RecordView::Lock(
        LockView {
            state_token: token_of(plan.state_id),
            open_state_token: token_of(plan.open_state_id),
            client_id: plan.owner.owner.client_id,
            owner: plan.owner.owner.owner@,
            object: stable_of(plan.file),
            ranges: stable_ranges(owned(plan.locks@, plan.owner@, plan.locks@.len())),
        },
    )
}

/// What the lock changes in the journal.
pub open spec fn lock_changes(plan: LockPlan, reply: Seq<u8>) -> Seq<ChangeView> {
    let put = ChangeView::Put { key: KeyView::Lock { state_token: token_of(plan.state_id) }, record: planned_record(plan) };
    let told = ChangeView::Put {
        key: replay_key_of(plan.reservation),
        record: replay_record_of(plan.reservation, no_effect(), reply),
    };
    match plan.open_reservation {
        Some(open) => seq![put] + reclaim_changes(plan.recovered, plan.remainder) + seq![
            ChangeView::Put { key: replay_key_of(open), record: replay_record_of(open, no_effect(), reply) },
            told,
        ],
        None => seq![
            ChangeView::Delete { key: KeyView::Lock { state_token: token_of(plan.requested) } },
            put,
            told,
        ] + reclaim_changes(plan.recovered, plan.remainder),
    }
}

impl LockPlan {
    /// What the lock changes in the journal, with the encoded reply.
    pub fn batch(&self, reply: &Vec<u8>) -> (batch: PersistBatch)
        ensures
            batch@ == lock_changes(*self, reply@),
    {
        let record = JournalRecord::Lock(
            LockRecord {
                state_token: state_token(self.state_id),
                open_state_token: state_token(self.open_state_id),
                client_id: self.owner.owner.client_id,
                owner: copy_bytes(self.owner.owner.owner.as_slice()),
                object: self.file.stable(),
                ranges: stable_lock_ranges(&self.locks, &self.owner),
            },
        );
        assert(record@ =~= planned_record(*self));
        let key = JournalKey::Lock { state_token: state_token(self.state_id) };
        let batch = match &self.open_reservation {
            Some(open) => {
                let batch = PersistBatch::default().put(key, record);
                let batch = append_reclaim(batch, &self.recovered, &self.remainder);
                batch.put(open.replay_key(), open.replay_record(ReplayEffect::default(), reply)).put(
                    self.reservation.replay_key(),
                    self.reservation.replay_record(ReplayEffect::default(), reply),
                )
            },
            None => {
                let batch = PersistBatch::default().delete(
                    JournalKey::Lock { state_token: state_token(self.requested) },
                ).put(key, record).put(
                    self.reservation.replay_key(),
                    self.reservation.replay_record(ReplayEffect::default(), reply),
                );
                append_reclaim(batch, &self.recovered, &self.remainder)
            },
        };
        assert(batch@ =~= lock_changes(*self, reply@));
        batch
    }
}

/// One more, but not more than can be counted.
pub open spec fn one_more(count: usize) -> usize {
    if count == usize::MAX {
        count
    } else {
        (count + 1) as usize
    }
}

impl StateView {
    /// The registry once a request gives its places in the sequences back.
    pub open spec fn both_dropped(self, open: Option<OwnerReservation>, lock: OwnerReservation) -> StateView {
        match open {
            Some(open) => self.dropped(lock).dropped(open),
            None => self.dropped(lock),
        }
    }

    /// The registry once an owner has one more state.
    pub open spec fn lock_owner_grown(self, owner: OwnerKey) -> StateView {
        let place = place_of_owner(owner);
        if self.lock_owners.contains_key(place) {
            StateView {
                lock_owners: self.lock_owners.insert(
                    place,
                    Owner {
                        active_states: one_more(self.lock_owners[place].active_states),
                        ..self.lock_owners[place]
                    },
                ),
                ..self
            }
        } else {
            self
        }
    }

    /// The registry with the state id by which an owner's locks are found.
    pub open spec fn lock_linked(self, plan: LockPlan) -> StateView {
        StateView {
            lock_by_state: self.lock_by_state.insert(
                lock_place(plan.owner@, plan.file),
                LockLink { owner: plan.owner, file: plan.file, state_id: plan.state_id },
            ),
            ..self
        }
    }
}

/// The answer to a plan that is finished.
pub open spec fn lock_finish_result(view: RuntimeView, plan: LockPlan, persisted: bool) -> LockResult {
    let state = view.state;
    if !persisted {
        LockResult::Failed(NfsStatus::Resource)
    } else if plan.open_reservation is Some {
        if !state.stateids.waits(plan.state_id.other@) {
            LockResult::Failed(NfsStatus::ServerFault)
        } else {
            LockResult::Granted(plan.state_id)
        }
    } else {
        match state.stateids.previewed(plan.requested) {
            Err(error) => LockResult::Failed(stateid_status(error)),
            Ok(next) => if next != plan.state_id || !state.awaits(plan.reservation) {
                LockResult::Failed(NfsStatus::ServerFault)
            } else {
                LockResult::Granted(plan.state_id)
            },
        }
    }
}

/// The registry once a plan is finished.
pub open spec fn lock_finish_state(state: StateView, plan: LockPlan, persisted: bool) -> StateView {
    let after = match plan.open_reservation {
        Some(open) => if !persisted {
            StateView {
                stateids: state.stateids.retired(plan.state_id.other@, StateDisposition::Closed),
                ..state
            }.both_dropped(plan.open_reservation, plan.reservation)
        } else if !state.stateids.waits(plan.state_id.other@) {
            state.both_dropped(plan.open_reservation, plan.reservation)
        } else {
            reclaimed(
                StateView { stateids: state.stateids.activated(plan.state_id.other@), ..state }.lock_linked(
                    plan,
                ).lock_owner_grown(plan.owner.owner),
                plan.recovered,
                plan.remainder,
            ).settled(open, plan.response, no_effect()).settled(plan.reservation, plan.response, no_effect())
        },
        None => if !persisted {
            state.dropped(plan.reservation)
        } else {
            match state.stateids.previewed(plan.requested) {
                Err(_) => state.dropped(plan.reservation),
                Ok(next) => {
                    let moved = StateView { stateids: state.stateids.transitioned(plan.requested), ..state };
                    if next != plan.state_id {
                        moved.dropped(plan.reservation)
                    } else {
                        reclaimed(moved.lock_linked(plan), plan.recovered, plan.remainder).settled(
                            plan.reservation,
                            plan.response,
                            no_effect(),
                        )
                    }
                },
            }
        },
    };
    after.access_ended(plan.access)
}

/// The server once a plan is finished.
pub open spec fn lock_finished(view: RuntimeView, plan: LockPlan, persisted: bool) -> RuntimeView {
    RuntimeView {
        state: lock_finish_state(view.state, plan, persisted),
        files: if persisted {
            view.files.insert(
                file_place(plan.file),
                FileView { locks: plan.locks@, ..file_at(view.files, plan.file) },
            )
        } else {
            view.files
        },
        ..view
    }
}

impl StateRegistry {
    /// Gives the places of a request in the sequences back.
    fn drop_both(&mut self, open: Option<OwnerReservation>, reservation: OwnerReservation)
        ensures
            final(self)@ == old(self)@.both_dropped(open, reservation),
    {
        self.drop_reservation(reservation);
        if let Some(open) = open {
            self.drop_reservation(open);
        }
    }

    /// Takes note of one more state of a lock owner.
    fn grow_lock_owner(&mut self, owner: &OwnerKey)
        ensures
            final(self)@ == old(self)@.lock_owner_grown(*owner),
    {
        let ghost before = self@;
        let place = owner.place();
        let mut found = match self.lock_owners.get(place.as_slice()) {
            Some(found) => found.copy(),
            None => {
                return;
            },
        };
        if found.active_states < usize::MAX {
            found.active_states = found.active_states + 1;
        }
        let _ = self.lock_owners.insert(place, found);
        assert(self@ =~= before.lock_owner_grown(*owner));
    }
}

impl Nfs4Runtime {
    /// Finishes a lock once it was written to the journal, or could not be.
    pub fn finish_lock(&mut self, plan: LockPlan, persisted: bool) -> (result: LockResult)
        requires
            persisted && plan.open_reservation is Some ==> old(self)@.state.awaits(plan.open_reservation->0) && old(
                self,
            )@.state.awaits(plan.reservation) && plan.open_reservation->0.kind == ReservedOwnerKind::Open
                && plan.reservation.kind == ReservedOwnerKind::Lock,
        ensures
            result == lock_finish_result(old(self)@, plan, persisted),
            final(self)@ == lock_finished(old(self)@, plan, persisted),
    {
        let ghost before = self@;
        let access = plan.access;
        if !persisted {
            if plan.open_reservation.is_some() {
                let _ = self.state.stateids.set_disposition(plan.state_id, StateDisposition::Closed);
            }
            self.state.drop_both(plan.open_reservation, plan.reservation);
            self.state.end_delegation_access(access);
            assert(self@ =~= lock_finished(before, plan, persisted));
            return LockResult::Failed(NfsStatus::Resource);
        }
        let mut file = self.files.take(plan.file);
        file.locks = plan.locks;
        self.files.put(plan.file, file);
        assert(self@.files =~= lock_finished(before, plan, persisted).files);
        let link = LockLink { owner: plan.owner.copy(), file: plan.file, state_id: plan.state_id };
        let place = lock_key(&plan.owner, plan.file);
        match plan.open_reservation {
            Some(open) => {
                if !self.state.stateids.activate(plan.state_id) {
                    self.state.drop_both(Some(open), plan.reservation);
                    self.state.end_delegation_access(access);
                    assert(self@ =~= lock_finished(before, plan, persisted));
                    return LockResult::Failed(NfsStatus::ServerFault);
                }
                let _ = self.state.lock_by_state.insert(place, link);
                self.state.grow_lock_owner(&plan.owner.owner);
                self.state.finish_reclaim(plan.recovered, plan.remainder);
                let _ = self.state.settle_reservation(open, share(&plan.response), ReplayEffect::default());
                let _ = self.state.settle_reservation(plan.reservation, plan.response, ReplayEffect::default());
                self.state.end_delegation_access(access);
                assert(self@ =~= lock_finished(before, plan, persisted));
                LockResult::Granted(plan.state_id)
            },
            None => {
                match self.state.stateids.transition(plan.requested) {
                    Err(error) => {
                        self.state.drop_reservation(plan.reservation);
                        self.state.end_delegation_access(access);
                        assert(self@ =~= lock_finished(before, plan, persisted));
                        LockResult::Failed(map_stateid_error(error))
                    },
                    Ok(next) => {
                        if !next.same(&plan.state_id) {
                            self.state.drop_reservation(plan.reservation);
                            self.state.end_delegation_access(access);
                            assert(self@ =~= lock_finished(before, plan, persisted));
                            return LockResult::Failed(NfsStatus::ServerFault);
                        }
                        let _ = self.state.lock_by_state.insert(place, link);
                        self.state.finish_reclaim(plan.recovered, plan.remainder);
                        let settled = self.state.settle_reservation(
                            plan.reservation,
                            plan.response,
                            ReplayEffect::default(),
                        );
                        self.state.end_delegation_access(access);
                        assert(self@ =~= lock_finished(before, plan, persisted));
                        if settled {
                            LockResult::Granted(plan.state_id)
                        } else {
                            LockResult::Failed(NfsStatus::ServerFault)
                        }
                    },
                }
            },
        }
    }
}

/// Whether a client may ask for the lock, the numbers under which it may reclaim, and the access that is begun for it.
pub open spec fn lock_admitted(
    view: RuntimeView,
    client_id: u64,
    principal: PrincipalView,
    wish: LockWish,
    access: Option<u64>,
    now: u64,
) -> Result<(Set<u64>, Option<u64>), NfsStatus> {
    match view.clients.gated(client_id, principal, wish.reclaim, now) {
        Err(error) => Err(error.status),
        Ok(previous) => match access {
            Some(id) => if access_matches(
                view.state,
                id,
                wish.file,
                Some(client_id),
                lock_kind(wish.lock_type),
                false,
            ) {
                Ok((previous, None))
            } else {
                Err(NfsStatus::ServerFault)
            },
            None => match view.state.access_number(
                wish.file,
                Some(client_id),
                lock_kind(wish.lock_type),
                false,
                view.limits,
            ) {
                Err(status) => Err(status),
                Ok(id) => Ok((previous, Some(id))),
            },
        },
    }
}

/// The server once a client has asked for a lock.
pub open spec fn lock_asked(
    view: RuntimeView,
    client_id: u64,
    principal: PrincipalView,
    wish: LockWish,
    access: Option<u64>,
    now: u64,
) -> RuntimeView {
    RuntimeView {
        clients: view.clients.touched(client_id, principal, NfsStatus::StaleClientId, now),
        state: if view.clients.gated(client_id, principal, wish.reclaim, now) is Ok && access is None {
            view.state.access_begun(wish.file, Some(client_id), lock_kind(wish.lock_type), false, view.limits)
        } else {
            view.state
        },
        ..view
    }
}

impl Nfs4Runtime {
    /// Asks whether a client may have a lock.
    fn admit_lock(&mut self, client_id: u64, principal: &Principal, wish: LockWish, access: Option<u64>, now: u64) -> (admitted:
        Result<(IdList, Option<u64>), NfsStatus>)
        ensures
            match lock_admitted(old(self)@, client_id, principal@, wish, access, now) {
                Ok((previous, begun)) => admitted is Ok && admitted->Ok_0.0@ == previous && admitted->Ok_0.1 == begun,
                Err(status) => admitted == Err::<(IdList, Option<u64>), NfsStatus>(status),
            },
            final(self)@ == lock_asked(old(self)@, client_id, principal@, wish, access, now),
    {
        let previous = match self.clients.gate(client_id, principal, wish.reclaim, now) {
            Ok(previous) => previous,
            Err(error) => {
                return Err(error.status);
            },
        };
        let kind = delegation_kind_for_lock(wish.lock_type);
        match access {
            Some(id) => {
                if self.state.delegation_access_matches(id, wish.file, Some(client_id), kind, false) {
                    Ok((previous, None))
                } else {
                    Err(NfsStatus::ServerFault)
                }
            },
            None => {
                match self.state.begin_delegation_access(wish.file, Some(client_id), kind, false, self.limits) {
                    Ok(id) => Ok((previous, Some(id))),
                    Err(status) => Err(status),
                }
            },
        }
    }
}

/// The locks of a file once the wish is had, or the answer why it is not.
pub open spec fn locks_planned(
    files: Map<Seq<u8>, FileView>,
    owner: LockStateOwner,
    wish: LockWish,
    open_access: ShareAccess,
    limits: Nfs4Limits,
) -> Option<LockResult> {
    let access = access_of(wish.lock_type);
    let locks = file_at(files, wish.file).locks;
    if !open_access.permits(access) {
        Some(LockResult::Failed(NfsStatus::OpenMode))
    } else {
        match conflict_at(locks, owner@, access, wish.range, locks.len()) {
            Some(i) => Some(LockResult::Denied(denial(locks[i]))),
            None => {
                let after = locks_with(locks, owner, access, wish.range);
                if owned(after, owner@, after.len()).len() > limits.max_lock_ranges_per_state {
                    Some(LockResult::Failed(NfsStatus::Resource))
                } else {
                    None
                }
            },
        }
    }
}

impl Nfs4Runtime {
    /// The locks of a file once the wish is had.
    fn plan_locks(&self, owner: &LockStateOwner, wish: LockWish, open_access: ShareAccess) -> (planned: Result<
        Vec<HeldLock>,
        LockResult,
    >)
        ensures
            match locks_planned(self@.files, *owner, wish, open_access, self@.limits) {
                Some(result) => planned == Err::<Vec<HeldLock>, LockResult>(result),
                None => planned is Ok && planned->Ok_0@ == locks_with(
                    file_at(self@.files, wish.file).locks,
                    *owner,
                    access_of(wish.lock_type),
                    wish.range,
                ),
            },
    {
        let access = lock_access(wish.lock_type);
        if !open_access.permits_lock(access) {
            return Err(LockResult::Failed(NfsStatus::OpenMode));
        }
        let none: Vec<HeldLock> = Vec::new();
        let locks = match self.files.get(wish.file) {
            Some(file) => &file.locks,
            None => &none,
        };
        assert(locks@ =~= file_at(self@.files, wish.file).locks);
        match lock(locks, owner, access, wish.range) {
            Err(i) => Err(LockResult::Denied(denied(&locks[i]))),
            Ok(after) => {
                if stable_lock_ranges(&after, owner).len() > self.limits.max_lock_ranges_per_state {
                    Err(LockResult::Failed(NfsStatus::Resource))
                } else {
                    Ok(after)
                }
            },
        }
    }
}

/// The answer that a cached reply holds, where it is one to a request for a lock.
pub open spec fn replayed_lock(decision: SequenceDecision) -> Option<LockResult> {
    match decision {
        SequenceDecision::Replay { result, .. } => match *result {
            ResOp::Lock(told) => Some(told),
            _ => None,
        },
        _ => None,
    }
}

/// The answer that a cached reply holds, where it is one to a request for a lock.
fn replayed_lock_result(decision: &SequenceDecision) -> (told: Option<LockResult>)
    ensures
        told == replayed_lock(*decision),
{
    match decision {
        SequenceDecision::Replay { result, context_effect: _ } => match &**result {
            ResOp::Lock(told) => Some(told.copy()),
            _ => None,
        },
        _ => None,
    }
}

/// What two sequences say of a request: the answer, where it is not to be executed.
pub open spec fn both_decided(open: SequenceDecision, lock: SequenceDecision) -> Option<LockResult> {
    if open is BadSequence || lock is BadSequence {
        Some(LockResult::Failed(NfsStatus::BadSequenceId))
    } else if open is InProgress || lock is InProgress {
        Some(LockResult::Failed(NfsStatus::Delay))
    } else if replayed_lock(open) is Some {
        replayed_lock(open)
    } else if replayed_lock(lock) is Some {
        replayed_lock(lock)
    } else if !(open is Execute) || !(lock is Execute) {
        Some(LockResult::Failed(NfsStatus::BadSequenceId))
    } else {
        None
    }
}

/// What two sequences say of a request: the answer, where it is not to be executed.
fn decide_both(open: &SequenceDecision, lock: &SequenceDecision) -> (told: Option<LockResult>)
    ensures
        told == both_decided(*open, *lock),
{
    let bad = matches!(open, SequenceDecision::BadSequence) || matches!(lock, SequenceDecision::BadSequence);
    if bad {
        return Some(LockResult::Failed(NfsStatus::BadSequenceId));
    }
    let running = matches!(open, SequenceDecision::InProgress) || matches!(lock, SequenceDecision::InProgress);
    if running {
        return Some(LockResult::Failed(NfsStatus::Delay));
    }
    if let Some(told) = replayed_lock_result(open) {
        return Some(told);
    }
    if let Some(told) = replayed_lock_result(lock) {
        return Some(told);
    }
    let execute = matches!(open, SequenceDecision::Execute) && matches!(lock, SequenceDecision::Execute);
    if execute {
        None
    } else {
        Some(LockResult::Failed(NfsStatus::BadSequenceId))
    }
}

/// A lock owner that has asked for nothing yet.
pub open spec fn fresh_lock_owner(key: OwnerKey, first: u32) -> Owner {
    Owner {
        key,
        sequence: OwnerSequence { first, last: None, pending: None },
        confirmed: false,
        active_states: 0,
    }
}

impl StateView {
    /// There is no room for a lock owner that is not known.
    pub open spec fn lock_owner_refused(self, owner: OwnerKey, limits: Nfs4Limits) -> bool {
        !self.lock_owners.contains_key(place_of_owner(owner)) && of_client(self.lock_owners, owner.client_id).len()
            >= limits.max_lock_owners_per_client
    }

    /// The registry with a lock owner, known or new.
    pub open spec fn lock_owner_made(self, owner: OwnerKey, first: u32) -> StateView {
        if self.lock_owners.contains_key(place_of_owner(owner)) {
            self
        } else {
            StateView {
                lock_owners: self.lock_owners.insert(place_of_owner(owner), fresh_lock_owner(owner, first)),
                ..self
            }
        }
    }

    /// The answer to a request of a new lock owner, where it is not to be executed.
    pub open spec fn new_lock_told(
        self,
        locker: OpenToLockOwner,
        open_owner: OwnerKey,
        digest: OwnerRequestDigest,
        limits: Nfs4Limits,
    ) -> Option<LockResult> {
        let made = self.lock_owner_made(locker.lock_owner, locker.lock_sequence_id);
        if self.lock_owner_refused(locker.lock_owner, limits) {
            Some(LockResult::Failed(NfsStatus::Resource))
        } else if !self.open_owners.contains_key(place_of_owner(open_owner)) {
            Some(LockResult::Failed(NfsStatus::BadStateId))
        } else {
            both_decided(
                made.open_owners[place_of_owner(open_owner)].sequence.decided(locker.open_sequence_id, digest),
                made.lock_owners[place_of_owner(locker.lock_owner)].sequence.decided(locker.lock_sequence_id, digest),
            )
        }
    }

    /// The registry once a new lock owner has asked; a new owner stays although it may get nothing.
    pub open spec fn new_lock_begun(
        self,
        locker: OpenToLockOwner,
        open_owner: OwnerKey,
        digest: OwnerRequestDigest,
        limits: Nfs4Limits,
    ) -> StateView {
        let made = self.lock_owner_made(locker.lock_owner, locker.lock_sequence_id);
        let open_place = place_of_owner(open_owner);
        let lock_place = place_of_owner(locker.lock_owner);
        if self.lock_owner_refused(locker.lock_owner, limits) {
            self
        } else if self.new_lock_told(locker, open_owner, digest, limits) is Some {
            made
        } else {
            StateView {
                open_owners: made.open_owners.insert(
                    open_place,
                    Owner {
                        sequence: made.open_owners[open_place].sequence.reserved(locker.open_sequence_id, digest),
                        ..made.open_owners[open_place]
                    },
                ),
                lock_owners: made.lock_owners.insert(
                    lock_place,
                    Owner {
                        sequence: made.lock_owners[lock_place].sequence.reserved(locker.lock_sequence_id, digest),
                        ..made.lock_owners[lock_place]
                    },
                ),
                ..made
            }
        }
    }
}

impl StateRegistry {
    /// Takes the places of a request of a new lock owner in both sequences.
    fn begin_new_lock(&mut self, locker: &OpenToLockOwner, open_owner: &OwnerKey, digest: OwnerRequestDigest, limits: Nfs4Limits) -> (told:
        Option<LockResult>)
        ensures
            told == old(self)@.new_lock_told(*locker, *open_owner, digest, limits),
            final(self)@ == old(self)@.new_lock_begun(*locker, *open_owner, digest, limits),
    {
        let ghost before = self@;
        let lock_place = locker.lock_owner.place();
        let open_place = open_owner.place();
        let mut lock_owner = match self.lock_owners.get(lock_place.as_slice()) {
            Some(owner) => owner.copy(),
            None => {
                if count_client(&self.lock_owners, locker.lock_owner.client_id) >= limits.max_lock_owners_per_client {
                    return Some(LockResult::Failed(NfsStatus::Resource));
                }
                let owner = Owner {
                    key: locker.lock_owner.copy(),
                    sequence: OwnerSequence::new(locker.lock_sequence_id),
                    confirmed: false,
                    active_states: 0,
                };
                let copy = owner.copy();
                let _ = self.lock_owners.insert(copy_bytes(lock_place.as_slice()), owner);
                copy
            },
        };
        let ghost made = self@;
        assert(made =~= before.lock_owner_made(locker.lock_owner, locker.lock_sequence_id));
        let mut owner = match self.open_owners.get(open_place.as_slice()) {
            Some(owner) => owner.copy(),
            None => {
                return Some(LockResult::Failed(NfsStatus::BadStateId));
            },
        };
        let open_decision = owner.sequence.decide(locker.open_sequence_id, digest);
        let lock_decision = lock_owner.sequence.decide(locker.lock_sequence_id, digest);
        if let Some(told) = decide_both(&open_decision, &lock_decision) {
            return Some(told);
        }
        let _ = owner.sequence.reserve(locker.open_sequence_id, digest);
        let _ = lock_owner.sequence.reserve(locker.lock_sequence_id, digest);
        let _ = self.open_owners.insert(open_place, owner);
        let _ = self.lock_owners.insert(lock_place, lock_owner);
        assert(self@ =~= before.new_lock_begun(*locker, *open_owner, digest, limits));
        None
    }
}

/// The open through which a new lock owner asks.
pub open spec fn new_lock_open(state: StateView, locker: OpenToLockOwner, limits: Nfs4Limits) -> Result<
    StateRecord,
    NfsStatus,
> {
    if locker.lock_owner.owner@.len() > limits.max_client_owner_size {
        Err(NfsStatus::Resource)
    } else {
        match state.stateids.identified(locker.open_state_id.other@) {
            Err(error) => Err(stateid_status(error)),
            Ok(record) => if record.payload is Open {
                Ok(record)
            } else {
                Err(NfsStatus::BadStateId)
            },
        }
    }
}

/// The place of a request in the sequence of the owner of the open.
pub open spec fn open_place(locker: OpenToLockOwner, open_owner: OwnerKey, digest: OwnerRequestDigest) -> OwnerReservation {
    OwnerReservation {
        kind: ReservedOwnerKind::Open,
        owner: open_owner,
        sequence_id: locker.open_sequence_id,
        digest,
        reserved_state: false,
        created_owner: false,
    }
}

/// The place of a request in the sequence of the owner of the lock.
pub open spec fn lock_turn(
    owner: OwnerKey,
    sequence_id: u32,
    digest: OwnerRequestDigest,
    created_owner: bool,
    reserved_state: bool,
) -> OwnerReservation {
    OwnerReservation { kind: ReservedOwnerKind::Lock, owner, sequence_id, digest, reserved_state, created_owner }
}

/// The owner of the bytes that a new lock owner asks for.
pub open spec fn range_owner(locker: OpenToLockOwner) -> LockStateOwner {
    LockStateOwner { owner: locker.lock_owner, open: locker.open_state_id.other }
}

/// A refusal that the owners keep, where its status is one that they do.
pub open spec fn refused_or_recorded(result: LockResult) -> LockVerdict {
    if consumes_sequence(lock_status(result)) {
        LockVerdict::Recorded(result)
    } else {
        LockVerdict::Refused(result)
    }
}

impl StateView {
    /// All state objects that there may be are there, or promised, or not let go yet.
    pub open spec fn full(self) -> bool {
        self.stateids.count() + self.reserved_states + self.pending_pin_releases.len() >= self.stateids.capacity
    }
}

/// What becomes of a request of a new lock owner that has its places in both sequences.
pub open spec fn new_lock_verdict(
    view: RuntimeView,
    locker: OpenToLockOwner,
    open_access: ShareAccess,
    open_confirmed: bool,
    previous: Set<u64>,
    wish: LockWish,
) -> LockVerdict {
    let state = view.state;
    match state.stateids.validated(locker.open_state_id, wish.file, true, false) {
        Err(error) => LockVerdict::Refused(LockResult::Failed(stateid_status(error))),
        Ok(_) => if !open_confirmed {
            LockVerdict::Refused(LockResult::Failed(NfsStatus::BadStateId))
        } else if state.lock_by_state.contains_key(lock_place(range_owner(locker)@, wish.file)) {
            LockVerdict::Refused(LockResult::Failed(NfsStatus::BadSequenceId))
        } else if wish.reclaim && !reclaimable(
            state,
            locker.open_state_id.other@,
            previous,
            locker.lock_owner.owner@,
            wish,
        ) {
            LockVerdict::Recorded(LockResult::Failed(NfsStatus::ReclaimBad))
        } else {
            match locks_planned(view.files, range_owner(locker), wish, open_access, view.limits) {
                Some(result) => refused_or_recorded(result),
                None => if state.full() || state.stateids.room() is None {
                    LockVerdict::Refused(LockResult::Failed(NfsStatus::Resource))
                } else {
                    LockVerdict::Planned
                },
            }
        },
    }
}

/// The payload of a new lock state.
pub open spec fn new_lock_payload(locker: OpenToLockOwner) -> StatePayload {
    StatePayload::Lock(ByteRangeLockState { owner: locker.lock_owner, open_state_id: locker.open_state_id })
}

/// What becomes of a request of a new lock owner.
pub open spec fn new_lock_outcome(
    view: RuntimeView,
    wish: LockWish,
    locker: OpenToLockOwner,
    digest: OwnerRequestDigest,
    principal: PrincipalView,
    access: Option<u64>,
    now: u64,
) -> LockVerdict {
    match new_lock_open(view.state, locker, view.limits) {
        Err(status) => LockVerdict::Refused(LockResult::Failed(status)),
        Ok(record) => {
            let open = record.payload->Open_0;
            if locker.lock_owner.client_id != record.client {
                LockVerdict::Refused(
                    LockResult::Failed(
                        match view.clients.touch_refused(
                            locker.lock_owner.client_id,
                            principal,
                            NfsStatus::StaleClientId,
                            now,
                        ) {
                            Some(error) => error.status,
                            None => NfsStatus::BadStateId,
                        },
                    ),
                )
            } else if open.owner.client_id != record.client {
                LockVerdict::Refused(LockResult::Failed(NfsStatus::BadStateId))
            } else {
                match lock_admitted(view, record.client, principal, wish, access, now) {
                    Err(status) => LockVerdict::Refused(LockResult::Failed(status)),
                    Ok((previous, _)) => {
                        let asked = lock_asked(view, record.client, principal, wish, access, now);
                        match asked.state.new_lock_told(locker, open.owner, digest, view.limits) {
                            Some(told) => LockVerdict::Refused(told),
                            None => new_lock_verdict(
                                new_lock_running(asked, locker, open.owner, digest),
                                locker,
                                open.access,
                                open.confirmed,
                                previous,
                                wish,
                            ),
                        }
                    },
                }
            }
        },
    }
}

/// The server once a request of a new lock owner has its places in both sequences.
pub open spec fn new_lock_running(
    asked: RuntimeView,
    locker: OpenToLockOwner,
    open_owner: OwnerKey,
    digest: OwnerRequestDigest,
) -> RuntimeView {
    RuntimeView { state: asked.state.new_lock_begun(locker, open_owner, digest, asked.limits), ..asked }
}

/// The registry once it is known what becomes of a request of a new lock owner.
pub open spec fn new_lock_judged(
    state: StateView,
    verdict: LockVerdict,
    locker: OpenToLockOwner,
    open_owner: OwnerKey,
    digest: OwnerRequestDigest,
    created: bool,
    wish: LockWish,
    begun: Option<u64>,
) -> StateView {
    match verdict {
        LockVerdict::Refused(_) => state.both_dropped(
            Some(open_place(locker, open_owner, digest)),
            lock_turn(locker.lock_owner, locker.lock_sequence_id, digest, created, false),
        ).access_ended(begun),
        LockVerdict::Recorded(_) => state,
        LockVerdict::Planned => StateView {
            stateids: state.stateids.allocated(locker.lock_owner.client_id, wish.file, new_lock_payload(locker)),
            reserved_states: (state.reserved_states + 1) as usize,
            ..state
        },
    }
}

/// The server once a new lock owner has asked.
pub open spec fn new_lock_after(
    view: RuntimeView,
    wish: LockWish,
    locker: OpenToLockOwner,
    digest: OwnerRequestDigest,
    principal: PrincipalView,
    access: Option<u64>,
    now: u64,
) -> RuntimeView {
    match new_lock_open(view.state, locker, view.limits) {
        Err(_) => view,
        Ok(record) => {
            let open = record.payload->Open_0;
            if locker.lock_owner.client_id != record.client {
                RuntimeView {
                    clients: view.clients.touched(
                        locker.lock_owner.client_id,
                        principal,
                        NfsStatus::StaleClientId,
                        now,
                    ),
                    ..view
                }
            } else if open.owner.client_id != record.client {
                view
            } else {
                let asked = lock_asked(view, record.client, principal, wish, access, now);
                match lock_admitted(view, record.client, principal, wish, access, now) {
                    Err(_) => asked,
                    Ok((_, begun)) => {
                        let running = new_lock_running(asked, locker, open.owner, digest);
                        match asked.state.new_lock_told(locker, open.owner, digest, view.limits) {
                            Some(_) => RuntimeView { state: running.state.access_ended(begun), ..running },
                            None => RuntimeView {
                                state: new_lock_judged(
                                    running.state,
                                    new_lock_outcome(view, wish, locker, digest, principal, access, now),
                                    locker,
                                    open.owner,
                                    digest,
                                    !asked.state.lock_owners.contains_key(place_of_owner(locker.lock_owner)),
                                    wish,
                                    begun,
                                ),
                                ..running
                            },
                        }
                    },
                }
            }
        },
    }
}

/// The plan is the one for a new lock owner.
pub open spec fn new_lock_planned(
    view: RuntimeView,
    plan: LockPlan,
    wish: LockWish,
    locker: OpenToLockOwner,
    digest: OwnerRequestDigest,
    principal: PrincipalView,
    access: Option<u64>,
    now: u64,
) -> bool {
    let record = new_lock_open(view.state, locker, view.limits)->Ok_0;
    let open = record.payload->Open_0;
    let asked = lock_asked(view, record.client, principal, wish, access, now);
    let (previous, begun) = lock_admitted(view, record.client, principal, wish, access, now)->Ok_0;
    &&& plan.open_reservation == Some(open_place(locker, open.owner, digest))
    &&& plan.reservation == lock_turn(
        locker.lock_owner,
        locker.lock_sequence_id,
        digest,
        !asked.state.lock_owners.contains_key(place_of_owner(locker.lock_owner)),
        true,
    )
    &&& view.state.stateids.allocated_id(plan.state_id)
    &&& plan.requested == plan.state_id
    &&& plan.owner == range_owner(locker)
    &&& plan.open_state_id == locker.open_state_id
    &&& plan.file == wish.file
    &&& plan.locks@ == locks_with(
        file_at(view.files, wish.file).locks,
        plan.owner,
        access_of(wish.lock_type),
        wish.range,
    )
    &&& *plan.response == ResOp::Lock(LockResult::Granted(plan.state_id))
    &&& plan_reclaims(view.state, plan, locker.open_state_id.other@, previous, locker.lock_owner.owner@, wish)
    &&& plan.access == begun
}

/// The step is the one that a request of a new lock owner leads to.
pub open spec fn new_lock_stepped(
    view: RuntimeView,
    after: RuntimeView,
    step: LockStep,
    wish: LockWish,
    locker: OpenToLockOwner,
    digest: OwnerRequestDigest,
    principal: PrincipalView,
    access: Option<u64>,
    now: u64,
) -> bool {
    match step {
        LockStep::Done(result) => new_lock_outcome(view, wish, locker, digest, principal, access, now)
            == LockVerdict::Refused(result),
        LockStep::Record(plan) => {
            let record = new_lock_open(view.state, locker, view.limits)->Ok_0;
            let asked = lock_asked(view, record.client, principal, wish, access, now);
            &&& new_lock_outcome(view, wish, locker, digest, principal, access, now)
                == LockVerdict::Recorded(plan.result)
            &&& plan.open_reservation == Some(open_place(locker, record.payload->Open_0.owner, digest))
            &&& plan.reservation == lock_turn(
                locker.lock_owner,
                locker.lock_sequence_id,
                digest,
                !asked.state.lock_owners.contains_key(place_of_owner(locker.lock_owner)),
                false,
            )
            &&& *plan.response == ResOp::Lock(plan.result)
            &&& plan.access == (lock_admitted(view, record.client, principal, wish, access, now)->Ok_0).1
        },
        LockStep::Grant(plan) => {
            &&& new_lock_outcome(view, wish, locker, digest, principal, access, now)
                == LockVerdict::Planned
            &&& new_lock_planned(view, plan, wish, locker, digest, principal, access, now)
            &&& after.state.awaits(plan.open_reservation->0)
            &&& after.state.awaits(plan.reservation)
        },
    }
}

/// The plan reclaims what it is to reclaim.
pub open spec fn plan_reclaims(
    state: StateView,
    plan: LockPlan,
    open: Seq<u8>,
    previous: Set<u64>,
    owner: Seq<u8>,
    wish: LockWish,
) -> bool {
    &&& reclaim_found(state, open, previous, owner, wish, plan.recovered)
    &&& match plan.recovered {
        Some(recovered) => remainder_of(recovered, wished(wish), plan.remainder),
        None => plan.remainder is None,
    }
}

impl StateRegistry {
    /// Whether all state objects that there may be are there, or promised, or not let go yet.
    pub fn is_full(&self) -> (full: bool)
        ensures
            full == self@.full(),
    {
        let count = self.stateids.len();
        let pins = self.pending_pin_releases.len();
        let capacity = self.stateids.capacity;
        if count >= capacity {
            return true;
        }
        if self.reserved_states >= capacity - count {
            return true;
        }
        pins >= capacity - count - self.reserved_states
    }
}

impl Nfs4Runtime {
    /// Asks for a lock of an owner that has no locks yet through an open.
    #[verifier::rlimit(50)]
    pub fn lock_new(
        &mut self,
        wish: LockWish,
        locker: &OpenToLockOwner,
        digest: OwnerRequestDigest,
        principal: &Principal,
        access: Option<u64>,
        now: u64,
    ) -> (step: LockStep)
        ensures
            new_lock_stepped(old(self)@, final(self)@, step, wish, *locker, digest, principal@, access, now),
            final(self)@ == new_lock_after(old(self)@, wish, *locker, digest, principal@, access, now),
    {
        let ghost before = self@;
        if locker.lock_owner.owner.len() > self.limits.max_client_owner_size {
            return LockStep::Done(LockResult::Failed(NfsStatus::Resource));
        }
        let record = match self.state.stateids.identify(locker.open_state_id) {
            Ok(record) => record,
            Err(error) => {
                return LockStep::Done(LockResult::Failed(map_stateid_error(error)));
            },
        };
        let client_id = record.client;
        let open = match record.payload {
            StatePayload::Open(open) => open,
            StatePayload::Lock(_) => {
                return LockStep::Done(LockResult::Failed(NfsStatus::BadStateId));
            },
        };
        if locker.lock_owner.client_id != client_id {
            let status = match self.clients.touch(
                locker.lock_owner.client_id,
                principal,
                NfsStatus::StaleClientId,
                now,
            ) {
                Ok(()) => NfsStatus::BadStateId,
                Err(error) => error.status,
            };
            return LockStep::Done(LockResult::Failed(status));
        }
        if open.owner.client_id != client_id {
            return LockStep::Done(LockResult::Failed(NfsStatus::BadStateId));
        }
        let (previous, begun) = match self.admit_lock(client_id, principal, wish, access, now) {
            Ok(admitted) => admitted,
            Err(status) => {
                return LockStep::Done(LockResult::Failed(status));
            },
        };
        let ghost asked = self@;
        let place = locker.lock_owner.place();
        let created = !self.state.lock_owners.contains(place.as_slice());
        if let Some(told) = self.state.begin_new_lock(locker, &open.owner, digest, self.limits) {
            self.state.end_delegation_access(begun);
            return LockStep::Done(told);
        }
        let ghost running = self@;
        assert(running == new_lock_running(asked, *locker, open.owner, digest));
        let open_reservation = OwnerReservation {
            kind: ReservedOwnerKind::Open,
            owner: open.owner,
            sequence_id: locker.open_sequence_id,
            digest,
            reserved_state: false,
            created_owner: false,
        };
        let mut reservation = OwnerReservation {
            kind: ReservedOwnerKind::Lock,
            owner: locker.lock_owner.copy(),
            sequence_id: locker.lock_sequence_id,
            digest,
            reserved_state: false,
            created_owner: created,
        };
        let owner = LockStateOwner { owner: locker.lock_owner.copy(), open: locker.open_state_id.other };
        let ghost verdict = new_lock_verdict(running, *locker, open.access, open.confirmed, previous@, wish);
        assert(verdict == new_lock_outcome(before, wish, *locker, digest, principal@, access, now));
        if let Err(error) = self.state.stateids.validate(locker.open_state_id, wish.file, true, false) {
            self.state.drop_both(Some(open_reservation), reservation);
            self.state.end_delegation_access(begun);
            return LockStep::Done(LockResult::Failed(map_stateid_error(error)));
        }
        if !open.confirmed {
            self.state.drop_both(Some(open_reservation), reservation);
            self.state.end_delegation_access(begun);
            return LockStep::Done(LockResult::Failed(NfsStatus::BadStateId));
        }
        let link = lock_key(&owner, wish.file);
        if self.state.lock_by_state.contains(link.as_slice()) {
            self.state.drop_both(Some(open_reservation), reservation);
            self.state.end_delegation_access(begun);
            return LockStep::Done(LockResult::Failed(NfsStatus::BadSequenceId));
        }
        let recovered = find_reclaimable(
            &self.state,
            &locker.open_state_id.other,
            &previous,
            &locker.lock_owner,
            wish,
        );
        if wish.reclaim && recovered.is_none() {
            let result = LockResult::Failed(NfsStatus::ReclaimBad);
            let response = Arc::new(ResOp::Lock(result.copy()));
            return LockStep::Record(
                LockErrorPlan {
                    open_reservation: Some(open_reservation),
                    reservation,
                    result,
                    response,
                    access: begun,
                },
            );
        }
        let planned = match self.plan_locks(&owner, wish, open.access) {
            Ok(planned) => planned,
            Err(result) => {
                if !sequence_status_consumed(result.status()) {
                    self.state.drop_both(Some(open_reservation), reservation);
                    self.state.end_delegation_access(begun);
                    return LockStep::Done(result);
                }
                let response = Arc::new(ResOp::Lock(result.copy()));
                return LockStep::Record(
                    LockErrorPlan {
                        open_reservation: Some(open_reservation),
                        reservation,
                        result,
                        response,
                        access: begun,
                    },
                );
            },
        };
        if self.state.is_full() {
            self.state.drop_both(Some(open_reservation), reservation);
            self.state.end_delegation_access(begun);
            return LockStep::Done(LockResult::Failed(NfsStatus::Resource));
        }
        let payload = StatePayload::Lock(
            ByteRangeLockState { owner: locker.lock_owner.copy(), open_state_id: locker.open_state_id },
        );
        let state_id = match self.state.stateids.allocate_pending(client_id, wish.file, payload) {
            Some(state_id) => state_id,
            None => {
                self.state.drop_both(Some(open_reservation), reservation);
                self.state.end_delegation_access(begun);
                return LockStep::Done(LockResult::Failed(NfsStatus::Resource));
            },
        };
        self.state.reserved_states = self.state.reserved_states + 1;
        reservation.reserved_state = true;
        let piece = Piece { access: lock_access(wish.lock_type), range: wish.range };
        let remainder = match &recovered {
            Some(recovered) => recovered_lock_remainder(recovered, piece),
            None => None,
        };
        let plan = LockPlan {
            open_reservation: Some(open_reservation),
            reservation,
            requested: state_id,
            state_id,
            owner,
            open_state_id: locker.open_state_id,
            file: wish.file,
            locks: planned,
            response: Arc::new(ResOp::Lock(LockResult::Granted(state_id))),
            recovered,
            remainder,
            access: begun,
        };
        assert(self@ =~= new_lock_after(before, wish, *locker, digest, principal@, access, now));
        LockStep::Grant(plan)
    }
}

/// The locks by which an owner asks for more.
pub open spec fn next_lock_record(state: StateView, state_id: StateId) -> Result<StateRecord, NfsStatus> {
    match state.stateids.identified(state_id.other@) {
        Err(error) => Err(stateid_status(error)),
        Ok(record) => if record.payload is Lock {
            Ok(record)
        } else {
            Err(NfsStatus::BadStateId)
        },
    }
}

/// The open through which an owner has its locks.
pub open spec fn lock_origin(state: StateView, open_state_id: StateId, client: u64, file: RuntimeFile) -> Result<
    (ShareAccess, bool),
    NfsStatus,
> {
    match state.stateids.identified(open_state_id.other@) {
        Err(error) => Err(stateid_status(error)),
        Ok(record) => if record.file == file && record.client == client && record.payload is Open {
            Ok((record.payload->Open_0.access, record.payload->Open_0.confirmed))
        } else {
            Err(NfsStatus::BadStateId)
        },
    }
}

/// What a sequence says of a request for a lock: the answer, where it is not to be executed.
pub open spec fn lock_decided(decision: SequenceDecision) -> Option<LockResult> {
    match decision {
        SequenceDecision::Execute => None,
        SequenceDecision::InProgress => Some(LockResult::Failed(NfsStatus::Delay)),
        SequenceDecision::BadSequence => Some(LockResult::Failed(NfsStatus::BadSequenceId)),
        SequenceDecision::Replay { .. } => match replayed_lock(decision) {
            Some(told) => Some(told),
            None => Some(LockResult::Failed(NfsStatus::BadSequenceId)),
        },
    }
}

/// The owner of the bytes that an owner with locks asks for.
pub open spec fn held_owner(lock: ByteRangeLockState) -> LockStateOwner {
    LockStateOwner { owner: lock.owner, open: lock.open_state_id.other }
}

impl StateView {
    /// The decision of a lock owner's sequence, where the owner is known.
    pub open spec fn lock_turn_told(self, owner: OwnerKey, sequence_id: u32, digest: OwnerRequestDigest) -> Option<
        SequenceDecision,
    > {
        if self.lock_owners.contains_key(place_of_owner(owner)) {
            Some(self.lock_owners[place_of_owner(owner)].sequence.decided(sequence_id, digest))
        } else {
            None
        }
    }

    /// The registry once a lock owner has asked.
    pub open spec fn lock_turn_taken(self, owner: OwnerKey, sequence_id: u32, digest: OwnerRequestDigest) -> StateView {
        let place = place_of_owner(owner);
        if self.lock_owners.contains_key(place) {
            StateView {
                lock_owners: self.lock_owners.insert(
                    place,
                    Owner {
                        sequence: self.lock_owners[place].sequence.reserved(sequence_id, digest),
                        ..self.lock_owners[place]
                    },
                ),
                ..self
            }
        } else {
            self
        }
    }
}

impl StateRegistry {
    /// Takes the place of a request in a lock owner's sequence, where it is its turn.
    pub fn take_lock_turn(&mut self, owner: &OwnerKey, sequence_id: u32, digest: OwnerRequestDigest) -> (decision: Option<
        SequenceDecision,
    >)
        ensures
            decision == old(self)@.lock_turn_told(*owner, sequence_id, digest),
            final(self)@ == old(self)@.lock_turn_taken(*owner, sequence_id, digest),
    {
        let ghost before = self@;
        let place = owner.place();
        let mut found = match self.lock_owners.get(place.as_slice()) {
            Some(found) => found.copy(),
            None => {
                return None;
            },
        };
        let decision = found.sequence.reserve(sequence_id, digest);
        let _ = self.lock_owners.insert(place, found);
        assert(self@ =~= before.lock_turn_taken(*owner, sequence_id, digest));
        Some(decision)
    }
}

/// What becomes of a request of an owner with locks that has its place in the sequence.
pub open spec fn next_lock_verdict(
    view: RuntimeView,
    locker: ExistingLockOwner,
    lock: ByteRangeLockState,
    client: u64,
    previous: Set<u64>,
    wish: LockWish,
) -> LockVerdict {
    let state = view.state;
    match state.stateids.validated(locker.lock_state_id, wish.file, false, true) {
        Err(error) => LockVerdict::Refused(LockResult::Failed(stateid_status(error))),
        Ok(_) => match lock_origin(state, lock.open_state_id, client, wish.file) {
            Err(status) => LockVerdict::Refused(LockResult::Failed(status)),
            Ok((open_access, open_confirmed)) => if !open_confirmed {
                LockVerdict::Refused(LockResult::Failed(NfsStatus::BadStateId))
            } else {
                match locks_planned(view.files, held_owner(lock), wish, open_access, view.limits) {
                    Some(result) => refused_or_recorded(result),
                    None => if wish.reclaim && !reclaimable(
                        state,
                        lock.open_state_id.other@,
                        previous,
                        lock.owner.owner@,
                        wish,
                    ) {
                        LockVerdict::Refused(LockResult::Failed(NfsStatus::ReclaimBad))
                    } else {
                        match state.stateids.previewed(locker.lock_state_id) {
                            Err(error) => LockVerdict::Refused(LockResult::Failed(stateid_status(error))),
                            Ok(_) => LockVerdict::Planned,
                        }
                    },
                }
            },
        },
    }
}

/// What becomes of a request of an owner with locks.
pub open spec fn next_lock_outcome(
    view: RuntimeView,
    wish: LockWish,
    locker: ExistingLockOwner,
    digest: OwnerRequestDigest,
    principal: PrincipalView,
    access: Option<u64>,
    now: u64,
) -> LockVerdict {
    match next_lock_record(view.state, locker.lock_state_id) {
        Err(status) => LockVerdict::Refused(LockResult::Failed(status)),
        Ok(record) => {
            let lock = record.payload->Lock_0;
            match lock_admitted(view, record.client, principal, wish, access, now) {
                Err(status) => LockVerdict::Refused(LockResult::Failed(status)),
                Ok((previous, _)) => {
                    let asked = lock_asked(view, record.client, principal, wish, access, now);
                    match asked.state.lock_turn_told(lock.owner, locker.lock_sequence_id, digest) {
                        None => LockVerdict::Refused(LockResult::Failed(NfsStatus::BadStateId)),
                        Some(decision) => match lock_decided(decision) {
                            Some(told) => LockVerdict::Refused(told),
                            None => next_lock_verdict(
                                next_lock_running(asked, locker, lock.owner, digest),
                                locker,
                                lock,
                                record.client,
                                previous,
                                wish,
                            ),
                        },
                    }
                },
            }
        },
    }
}

/// The server once a request of an owner with locks has its place in the sequence.
pub open spec fn next_lock_running(
    asked: RuntimeView,
    locker: ExistingLockOwner,
    owner: OwnerKey,
    digest: OwnerRequestDigest,
) -> RuntimeView {
    RuntimeView { state: asked.state.lock_turn_taken(owner, locker.lock_sequence_id, digest), ..asked }
}

/// The server once an owner with locks has asked.
pub open spec fn next_lock_after(
    view: RuntimeView,
    wish: LockWish,
    locker: ExistingLockOwner,
    digest: OwnerRequestDigest,
    principal: PrincipalView,
    access: Option<u64>,
    now: u64,
) -> RuntimeView {
    match next_lock_record(view.state, locker.lock_state_id) {
        Err(_) => view,
        Ok(record) => {
            let lock = record.payload->Lock_0;
            let asked = lock_asked(view, record.client, principal, wish, access, now);
            match lock_admitted(view, record.client, principal, wish, access, now) {
                Err(_) => asked,
                Ok((_, begun)) => {
                    let running = next_lock_running(asked, locker, lock.owner, digest);
                    let taken = match asked.state.lock_turn_told(lock.owner, locker.lock_sequence_id, digest) {
                        Some(decision) => lock_decided(decision) is None,
                        None => false,
                    };
                    RuntimeView {
                        state: match next_lock_outcome(view, wish, locker, digest, principal, access, now) {
                            LockVerdict::Refused(_) => if taken {
                                running.state.dropped(
                                    lock_turn(lock.owner, locker.lock_sequence_id, digest, false, false),
                                ).access_ended(begun)
                            } else {
                                running.state.access_ended(begun)
                            },
                            _ => running.state,
                        },
                        ..running
                    }
                },
            }
        },
    }
}

/// The plan is the one for an owner with locks.
pub open spec fn next_lock_planned(
    view: RuntimeView,
    plan: LockPlan,
    wish: LockWish,
    locker: ExistingLockOwner,
    digest: OwnerRequestDigest,
    principal: PrincipalView,
    access: Option<u64>,
    now: u64,
) -> bool {
    let record = next_lock_record(view.state, locker.lock_state_id)->Ok_0;
    let lock = record.payload->Lock_0;
    let (previous, begun) = lock_admitted(view, record.client, principal, wish, access, now)->Ok_0;
    &&& plan.open_reservation is None
    &&& plan.reservation == lock_turn(lock.owner, locker.lock_sequence_id, digest, false, false)
    &&& plan.requested == locker.lock_state_id
    &&& view.state.stateids.previewed(locker.lock_state_id) == Ok::<StateId, StateIdValidationError>(plan.state_id)
    &&& plan.owner == held_owner(lock)
    &&& plan.open_state_id == lock.open_state_id
    &&& plan.file == wish.file
    &&& plan.locks@ == locks_with(
        file_at(view.files, wish.file).locks,
        plan.owner,
        access_of(wish.lock_type),
        wish.range,
    )
    &&& *plan.response == ResOp::Lock(LockResult::Granted(plan.state_id))
    &&& plan_reclaims(view.state, plan, lock.open_state_id.other@, previous, lock.owner.owner@, wish)
    &&& plan.access == begun
}

/// The step is the one that a request of a known lock owner leads to.
pub open spec fn next_lock_stepped(
    view: RuntimeView,
    after: RuntimeView,
    step: LockStep,
    wish: LockWish,
    locker: ExistingLockOwner,
    digest: OwnerRequestDigest,
    principal: PrincipalView,
    access: Option<u64>,
    now: u64,
) -> bool {
    match step {
        LockStep::Done(result) => next_lock_outcome(view, wish, locker, digest, principal, access, now)
            == LockVerdict::Refused(result),
        LockStep::Record(plan) => {
            let record = next_lock_record(view.state, locker.lock_state_id)->Ok_0;
            &&& next_lock_outcome(view, wish, locker, digest, principal, access, now)
                == LockVerdict::Recorded(plan.result)
            &&& plan.open_reservation is None
            &&& plan.reservation == lock_turn(
                record.payload->Lock_0.owner,
                locker.lock_sequence_id,
                digest,
                false,
                false,
            )
            &&& *plan.response == ResOp::Lock(plan.result)
            &&& plan.access == (lock_admitted(view, record.client, principal, wish, access, now)->Ok_0).1
        },
        LockStep::Grant(plan) => {
            &&& next_lock_outcome(view, wish, locker, digest, principal, access, now)
                == LockVerdict::Planned
            &&& next_lock_planned(view, plan, wish, locker, digest, principal, access, now)
            &&& after.state.awaits(plan.reservation)
        },
    }
}

/// What a sequence says of a request for a lock: the answer, where it is not to be executed.
fn decide_lock(decision: &SequenceDecision) -> (told: Option<LockResult>)
    ensures
        told == lock_decided(*decision),
{
    match decision {
        SequenceDecision::Execute => None,
        SequenceDecision::InProgress => Some(LockResult::Failed(NfsStatus::Delay)),
        SequenceDecision::BadSequence => Some(LockResult::Failed(NfsStatus::BadSequenceId)),
        SequenceDecision::Replay { result: _, context_effect: _ } => match replayed_lock_result(decision) {
            Some(told) => Some(told),
            None => Some(LockResult::Failed(NfsStatus::BadSequenceId)),
        },
    }
}

impl StateRegistry {
    /// The open through which an owner has its locks.
    fn find_origin(&self, open_state_id: StateId, client: u64, file: RuntimeFile) -> (found: Result<
        (ShareAccess, bool),
        NfsStatus,
    >)
        ensures
            found == lock_origin(self@, open_state_id, client, file),
    {
        match self.stateids.identify(open_state_id) {
            Err(error) => Err(map_stateid_error(error)),
            Ok(record) => {
                if record.file == file && record.client == client {
                    match record.payload {
                        StatePayload::Open(open) => Ok((open.access, open.confirmed)),
                        StatePayload::Lock(_) => Err(NfsStatus::BadStateId),
                    }
                } else {
                    Err(NfsStatus::BadStateId)
                }
            },
        }
    }
}

impl Nfs4Runtime {
    /// Asks for a lock of an owner that has had locks through an open.
    #[verifier::rlimit(50)]
    pub fn lock_existing(
        &mut self,
        wish: LockWish,
        locker: ExistingLockOwner,
        digest: OwnerRequestDigest,
        principal: &Principal,
        access: Option<u64>,
        now: u64,
    ) -> (step: LockStep)
        ensures
            next_lock_stepped(old(self)@, final(self)@, step, wish, locker, digest, principal@, access, now),
            final(self)@ == next_lock_after(old(self)@, wish, locker, digest, principal@, access, now),
    {
        let ghost before = self@;
        let record = match self.state.stateids.identify(locker.lock_state_id) {
            Ok(record) => record,
            Err(error) => {
                return LockStep::Done(LockResult::Failed(map_stateid_error(error)));
            },
        };
        let client_id = record.client;
        let held = match record.payload {
            StatePayload::Lock(held) => held,
            StatePayload::Open(_) => {
                return LockStep::Done(LockResult::Failed(NfsStatus::BadStateId));
            },
        };
        let (previous, begun) = match self.admit_lock(client_id, principal, wish, access, now) {
            Ok(admitted) => admitted,
            Err(status) => {
                return LockStep::Done(LockResult::Failed(status));
            },
        };
        let ghost asked = self@;
        let decision = match self.state.take_lock_turn(&held.owner, locker.lock_sequence_id, digest) {
            Some(decision) => decision,
            None => {
                self.state.end_delegation_access(begun);
                return LockStep::Done(LockResult::Failed(NfsStatus::BadStateId));
            },
        };
        let ghost running = self@;
        assert(running == next_lock_running(asked, locker, held.owner, digest));
        if let Some(told) = decide_lock(&decision) {
            self.state.end_delegation_access(begun);
            return LockStep::Done(told);
        }
        let ghost verdict = next_lock_verdict(running, locker, held, client_id, previous@, wish);
        assert(verdict == next_lock_outcome(before, wish, locker, digest, principal@, access, now));
        let reservation = OwnerReservation {
            kind: ReservedOwnerKind::Lock,
            owner: held.owner.copy(),
            sequence_id: locker.lock_sequence_id,
            digest,
            reserved_state: false,
            created_owner: false,
        };
        if let Err(error) = self.state.stateids.validate(locker.lock_state_id, wish.file, false, true) {
            self.state.drop_reservation(reservation);
            self.state.end_delegation_access(begun);
            return LockStep::Done(LockResult::Failed(map_stateid_error(error)));
        }
        let (open_access, open_confirmed) = match self.state.find_origin(held.open_state_id, client_id, wish.file) {
            Ok(found) => found,
            Err(status) => {
                self.state.drop_reservation(reservation);
                self.state.end_delegation_access(begun);
                return LockStep::Done(LockResult::Failed(status));
            },
        };
        if !open_confirmed {
            self.state.drop_reservation(reservation);
            self.state.end_delegation_access(begun);
            return LockStep::Done(LockResult::Failed(NfsStatus::BadStateId));
        }
        let owner = LockStateOwner { owner: held.owner.copy(), open: held.open_state_id.other };
        let planned = match self.plan_locks(&owner, wish, open_access) {
            Ok(planned) => planned,
            Err(result) => {
                if !sequence_status_consumed(result.status()) {
                    self.state.drop_reservation(reservation);
                    self.state.end_delegation_access(begun);
                    return LockStep::Done(result);
                }
                let response = Arc::new(ResOp::Lock(result.copy()));
                return LockStep::Record(
                    LockErrorPlan { open_reservation: None, reservation, result, response, access: begun },
                );
            },
        };
        let recovered = find_reclaimable(&self.state, &held.open_state_id.other, &previous, &held.owner, wish);
        if wish.reclaim && recovered.is_none() {
            self.state.drop_reservation(reservation);
            self.state.end_delegation_access(begun);
            return LockStep::Done(LockResult::Failed(NfsStatus::ReclaimBad));
        }
        let next = match self.state.stateids.preview_transition(locker.lock_state_id) {
            Ok(next) => next,
            Err(error) => {
                self.state.drop_reservation(reservation);
                self.state.end_delegation_access(begun);
                return LockStep::Done(LockResult::Failed(map_stateid_error(error)));
            },
        };
        let piece = Piece { access: lock_access(wish.lock_type), range: wish.range };
        let remainder = match &recovered {
            Some(recovered) => recovered_lock_remainder(recovered, piece),
            None => None,
        };
        LockStep::Grant(
            LockPlan {
                open_reservation: None,
                reservation,
                requested: locker.lock_state_id,
                state_id: next,
                owner,
                open_state_id: held.open_state_id,
                file: wish.file,
                locks: planned,
                response: Arc::new(ResOp::Lock(LockResult::Granted(next))),
                recovered,
                remainder,
                access: begun,
            },
        )
    }

    /// Asks for a lock.
    pub fn lock(
        &mut self,
        arguments: &LockArgs,
        file: RuntimeFile,
        digest: OwnerRequestDigest,
        principal: &Principal,
        access: Option<u64>,
        now: u64,
    ) -> (step: LockStep)
        ensures
            match crate::locks::wire_range(arguments.offset, arguments.length) {
                None => step == LockStep::Done(LockResult::Failed(NfsStatus::Invalid)) && final(self)@ == old(self)@,
                Some(range) => {
                    let wish = LockWish { lock_type: arguments.lock_type, reclaim: arguments.reclaim, range, file };
                    match arguments.locker {
                        Locker::New(locker) => {
                            &&& final(self)@ == new_lock_after(
                                old(self)@,
                                wish,
                                locker,
                                digest,
                                principal@,
                                access,
                                now,
                            )
                            &&& new_lock_stepped(
                                old(self)@,
                                final(self)@,
                                step,
                                wish,
                                locker,
                                digest,
                                principal@,
                                access,
                                now,
                            )
                        },
                        Locker::Existing(locker) => {
                            &&& final(self)@ == next_lock_after(
                                old(self)@,
                                wish,
                                locker,
                                digest,
                                principal@,
                                access,
                                now,
                            )
                            &&& next_lock_stepped(
                                old(self)@,
                                final(self)@,
                                step,
                                wish,
                                locker,
                                digest,
                                principal@,
                                access,
                                now,
                            )
                        },
                    }
                },
            },
    {
        let range = match LockRange::from_offset_length(arguments.offset, arguments.length) {
            Some(range) => range,
            None => {
                return LockStep::Done(LockResult::Failed(NfsStatus::Invalid));
            },
        };
        let wish = LockWish { lock_type: arguments.lock_type, reclaim: arguments.reclaim, range, file };
        match &arguments.locker {
            Locker::New(locker) => self.lock_new(wish, locker, digest, principal, access, now),
            Locker::Existing(locker) => self.lock_existing(wish, *locker, digest, principal, access, now),
        }
    }

    /// Gives a lock up whose reply could not be encoded.
    pub fn abandon_lock(&mut self, plan: LockPlan) -> (result: LockResult)
        ensures
            result == LockResult::Failed(NfsStatus::ServerFault),
            final(self)@ == lock_finished(old(self)@, plan, false),
    {
        let _ = self.finish_lock(plan, false);
        LockResult::Failed(NfsStatus::ServerFault)
    }
}

/// What a refusal that owners keep changes in the journal.
pub open spec fn lock_error_changes(plan: LockErrorPlan, reply: Seq<u8>) -> Seq<ChangeView> {
    let told = ChangeView::Put {
        key: replay_key_of(plan.reservation),
        record: replay_record_of(plan.reservation, no_effect(), reply),
    };
    match plan.open_reservation {
        Some(open) => seq![
            ChangeView::Put { key: replay_key_of(open), record: replay_record_of(open, no_effect(), reply) },
            told,
        ],
        None => seq![told],
    }
}

impl LockErrorPlan {
    /// What the refusal changes in the journal, with the encoded reply.
    pub fn batch(&self, reply: &Vec<u8>) -> (batch: PersistBatch)
        ensures
            batch@ == lock_error_changes(*self, reply@),
    {
        let batch = PersistBatch::default();
        let batch = match &self.open_reservation {
            Some(open) => batch.put(open.replay_key(), open.replay_record(ReplayEffect::default(), reply)),
            None => batch,
        };
        let batch = batch.put(
            self.reservation.replay_key(),
            self.reservation.replay_record(ReplayEffect::default(), reply),
        );
        assert(batch@ =~= lock_error_changes(*self, reply@));
        batch
    }
}

/// The registry once owners have a refusal, and whether all of them waited for it.
pub open spec fn lock_error_settled(state: StateView, plan: LockErrorPlan) -> (StateView, bool) {
    match plan.open_reservation {
        Some(open) => if !state.awaits(open) {
            (state.dropped(open).dropped(plan.reservation), false)
        } else {
            let after = state.answered(open, plan.response, no_effect());
            (after.settled(plan.reservation, plan.response, no_effect()), after.awaits(plan.reservation))
        },
        None => (state.settled(plan.reservation, plan.response, no_effect()), state.awaits(plan.reservation)),
    }
}

impl Nfs4Runtime {
    /// Finishes a refusal that owners keep, once it was written to the journal, or could not be.
    pub fn finish_lock_error(&mut self, plan: LockErrorPlan, recorded: bool) -> (result: LockResult)
        ensures
            result == if !recorded {
                LockResult::Failed(NfsStatus::Resource)
            } else if lock_error_settled(old(self)@.state, plan).1 {
                plan.result
            } else {
                LockResult::Failed(NfsStatus::ServerFault)
            },
            final(self)@ == (RuntimeView {
                state: (if recorded {
                    lock_error_settled(old(self)@.state, plan).0
                } else {
                    old(self)@.state.both_dropped(plan.open_reservation, plan.reservation)
                }).access_ended(plan.access),
                ..old(self)@
            }),
    {
        let access = plan.access;
        if !recorded {
            self.state.drop_both(plan.open_reservation, plan.reservation);
            self.state.end_delegation_access(access);
            return LockResult::Failed(NfsStatus::Resource);
        }
        if let Some(open) = plan.open_reservation {
            if !self.state.settle_reservation(open, share(&plan.response), ReplayEffect::default()) {
                self.state.drop_reservation(plan.reservation);
                self.state.end_delegation_access(access);
                return LockResult::Failed(NfsStatus::ServerFault);
            }
        }
        let settled = self.state.settle_reservation(plan.reservation, plan.response, ReplayEffect::default());
        self.state.end_delegation_access(access);
        if settled {
            plan.result
        } else {
            LockResult::Failed(NfsStatus::ServerFault)
        }
    }
}

} // verus!
