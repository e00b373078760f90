//! What byte-range locks mean for each other: a byte that one owner has locked for writing is locked by nobody else.

use vstd::prelude::*;

use crate::files::{file_at, FileView};
use crate::identity::PrincipalView;
use crate::locks::{
    conflict_at, conflict_of_others, denial, foreign, held_by, holds, holds_in, lemma_foreign, lemma_locked,
    lemma_owned_behind, lemma_owned_from, lemma_owned_has, lemma_unlocked, lock_against, locks_agree, locks_with,
    locks_without, owned, piece_holds, pieces_locked, pieces_normal, pieces_unlocked, ranges_overlap, wire_range, HeldLock,
    LockRange, Piece, RangeOwner,
};
use crate::protocol::{
    access_of, file_place, lock_place, LockAccess, LockDenied, LockResult, LockStateOwner, LockType, Nfs4Limits, NfsStatus,
    OwnerRequestDigest, RuntimeFile, StateId,
};
use crate::runtime::agreement::{file_agrees, files_agree};
use crate::runtime::lock::{
    held_owner, lock_asked, lock_origin, locks_planned, new_lock_open, new_lock_running, new_lock_stepped, new_lock_verdict,
    next_lock_record, next_lock_running, next_lock_stepped, next_lock_verdict, range_owner, ExistingLockOwner, LockPlan,
    LockStep, LockTestArgs, LockVerdict, LockWish, Locker, OpenToLockOwner,
};
use crate::runtime::unlock::{lock_tested, unlock_verdict, LockTestResult, UnlockVerdict};
use crate::runtime::RuntimeView;
use crate::share::ShareAccess;
use crate::stateid::{ByteRangeLockState, StatePayload};

verus! {

/// The lock is one for writing, whether the client waits for it or not.
pub open spec fn for_writing(lock_type: LockType) -> bool {
    lock_type == LockType::Write || lock_type == LockType::BlockingWrite
}

/// The byte is one of so many from an offset on; a length of all ones is for all that come.
pub open spec fn byte_meant(offset: u64, length: u64, byte: int) -> bool {
    offset <= byte && (length == u64::MAX || byte < offset + length)
}

/// The byte is in the range.
pub open spec fn byte_in(range: LockRange, byte: int) -> bool {
    range.start <= byte && (range.end matches Some(end) ==> byte < end)
}

/// The lock is the owner's, and holds the byte for writing or for reading.
pub open spec fn held_at(lock: HeldLock, owner: RangeOwner, byte: int, write: bool) -> bool {
    &&& lock.owner@ == owner
    &&& byte_in(lock.range, byte)
    &&& (lock.access == LockAccess::Write) == write
}

/// The owner holds the byte for writing, or for reading.
pub open spec fn byte_held(locks: Seq<HeldLock>, owner: RangeOwner, byte: int, write: bool) -> bool {
    exists|i: int| 0 <= i < locks.len() && held_at(#[trigger] locks[i], owner, byte, write)
}

/// A file has bytes up to that one.
pub open spec fn is_byte(byte: int) -> bool {
    0 <= byte < 0x1_0000_0000_0000_0000
}

/// An offset and a length of the wire stand for the bytes that they mean; a length of zero, and one that goes past
/// the last byte, stand for none.
pub proof fn lemma_wire_bytes(offset: u64, length: u64)
    ensures
        wire_range(offset, length) is None <==> length == 0 || (length != u64::MAX && offset + length > u64::MAX),
        wire_range(offset, length) matches Some(range) ==> range.solid() && byte_in(range, offset as int) && forall|byte: int|
            #![trigger byte_in(range, byte)]
            is_byte(byte) ==> (byte_in(range, byte) <==> byte_meant(offset, length, byte)),
{
}

/// Ranges reach into each other where they have a byte in common.
proof fn lemma_common_byte(a: LockRange, b: LockRange) -> (byte: int)
    requires
        a.solid(),
        b.solid(),
    ensures
        ranges_overlap(a, b) ==> is_byte(byte) && byte_in(a, byte) && byte_in(b, byte),
        !ranges_overlap(a, b) ==> forall|other: int| #![trigger byte_in(a, other)] is_byte(other) ==> !(byte_in(a, other) && byte_in(b, other)),
{
    if a.start < b.start {
        b.start as int
    } else {
        a.start as int
    }
}

/// What an owner holds is told by its pieces.
proof fn lemma_held_pieces(locks: Seq<HeldLock>, owner: RangeOwner, byte: int, access: LockAccess)
    requires
        is_byte(byte),
    ensures
        byte_held(locks, owner, byte, access == LockAccess::Write) == holds(owned(locks, owner, locks.len()), byte, access),
{
    let own = owned(locks, owner, locks.len());
    let write = access == LockAccess::Write;
    if byte_held(locks, owner, byte, write) {
        let i = choose|i: int| 0 <= i < locks.len() && held_at(#[trigger] locks[i], owner, byte, write);
        lemma_owned_has(locks, owner, locks.len(), i);
        let k = choose|k: int|
            0 <= k < own.len() && #[trigger] own[k] == (Piece { access: locks[i].access, range: locks[i].range });
        assert(piece_holds(own[k], byte, access));
    }
    if holds(own, byte, access) {
        let k = choose|k: int| 0 <= k < own.len() && piece_holds(#[trigger] own[k], byte, access);
        lemma_owned_from(locks, owner, locks.len(), k);
        let i = choose|i: int|
            0 <= i < locks.len() && (#[trigger] locks[i]).owner@ == owner && own[k] == (Piece {
                access: locks[i].access,
                range: locks[i].range,
            });
        assert(held_at(locks[i], owner, byte, write));
    }
}

/// The pieces of each owner, once those of one owner are others.
proof fn lemma_pieces_changed(locks: Seq<HeldLock>, owner: LockStateOwner, pieces: Seq<Piece>, who: RangeOwner)
    ensures
        ({
            let after = foreign(locks, owner@, locks.len()) + held_by(owner, pieces);
            owned(after, who, after.len()) == if who == owner@ {
                pieces
            } else {
                owned(locks, who, locks.len())
            }
        }),
{
    let others = foreign(locks, owner@, locks.len());
    let after = others + held_by(owner, pieces);
    lemma_foreign(locks, owner@, locks.len());
    lemma_owned_behind(others, owner, pieces, who, pieces.len());
    assert(after.len() == others.len() + pieces.len());
    assert(pieces.take(pieces.len() as int) =~= pieces);
    assert(Seq::<Piece>::empty() + pieces =~= pieces);
    if who != owner@ {
        assert(owned(others, who, others.len()) == owned(locks, who, locks.len()));
        assert(owned(others, who, others.len()) + Seq::<Piece>::empty() =~= owned(others, who, others.len()));
    }
}

/// A lock that is had gives its owner each byte of the range, for writing where its type is one for writing and for
/// reading where it is not, and never both. The owner's other bytes, and all bytes of the others, stay as they were.
pub proof fn lemma_lock_bytes(
    locks: Seq<HeldLock>,
    owner: LockStateOwner,
    lock_type: LockType,
    range: LockRange,
    who: RangeOwner,
    byte: int,
    write: bool,
)
    requires
        locks_agree(locks),
        range.solid(),
        is_byte(byte),
    ensures
        byte_held(locks_with(locks, owner, access_of(lock_type), range), who, byte, write) == if who == owner@ && byte_in(
            range,
            byte,
        ) {
            write == for_writing(lock_type)
        } else {
            byte_held(locks, who, byte, write)
        },
{
    let access = access_of(lock_type);
    let kind = if write {
        LockAccess::Write
    } else {
        LockAccess::Read
    };
    let own = owned(locks, owner@, locks.len());
    let piece = Piece { access, range };
    let after = locks_with(locks, owner, access, range);
    lemma_pieces_changed(locks, owner, pieces_locked(own, piece), who);
    lemma_held_pieces(locks, who, byte, kind);
    lemma_held_pieces(after, who, byte, kind);
    assert(pieces_normal(own));
    lemma_locked(own, piece);
    assert(holds(pieces_locked(own, piece), byte, kind) == if piece.range.has(byte) {
        kind == piece.access
    } else {
        holds(own, byte, kind)
    });
}

/// Locks that are given back leave their owner no byte of the range. The owner's other bytes, and all bytes of the
/// others, stay as they were.
pub proof fn lemma_unlock_bytes(
    locks: Seq<HeldLock>,
    owner: LockStateOwner,
    range: LockRange,
    who: RangeOwner,
    byte: int,
    write: bool,
)
    requires
        locks_agree(locks),
        range.solid(),
        is_byte(byte),
    ensures
        byte_held(locks_without(locks, owner, range), who, byte, write) == (!(who == owner@ && byte_in(range, byte))
            && byte_held(locks, who, byte, write)),
{
    let kind = if write {
        LockAccess::Write
    } else {
        LockAccess::Read
    };
    let own = owned(locks, owner@, locks.len());
    let after = locks_without(locks, owner, range);
    lemma_pieces_changed(locks, owner, pieces_unlocked(own, range), who);
    lemma_held_pieces(locks, who, byte, kind);
    lemma_held_pieces(after, who, byte, kind);
    assert(pieces_normal(own));
    lemma_unlocked(own, range);
    assert(holds(pieces_unlocked(own, range), byte, kind) == (!range.has(byte) && holds(own, byte, kind)));
}

/// A held lock has a byte of the range that it and a lock of that type cannot both have.
pub open spec fn stands_against(lock: HeldLock, lock_type: LockType, range: LockRange) -> bool {
    &&& exists|byte: int| is_byte(byte) && #[trigger] byte_in(lock.range, byte) && byte_in(range, byte)
    &&& lock.access == LockAccess::Write || for_writing(lock_type)
}

/// Two locks stand against each other where they have a byte in common and one of them is for writing.
proof fn lemma_against(lock: HeldLock, lock_type: LockType, range: LockRange)
    requires
        lock.range.solid(),
        range.solid(),
    ensures
        lock_against(lock, access_of(lock_type), range) == stands_against(lock, lock_type, range),
{
    let byte = lemma_common_byte(lock.range, range);
    if ranges_overlap(lock.range, range) {
        assert(is_byte(byte) && byte_in(lock.range, byte) && byte_in(range, byte));
    }
}

/// Locks in agreement hold a byte each.
proof fn lemma_solid(locks: Seq<HeldLock>, i: int)
    requires
        locks_agree(locks),
        0 <= i < locks.len(),
    ensures
        locks[i].range.solid(),
{
    lemma_owned_has(locks, locks[i].owner@, locks.len(), i);
    let theirs = owned(locks, locks[i].owner@, locks.len());
    let at = choose|at: int|
        0 <= at < theirs.len() && #[trigger] theirs[at] == (Piece { access: locks[i].access, range: locks[i].range });
    assert(pieces_normal(theirs));
    assert(theirs[at].range.solid());
}

/// The conflict that is found is the first lock of another owner that stands against the request.
proof fn lemma_first_conflict(locks: Seq<HeldLock>, owner: RangeOwner, lock_type: LockType, range: LockRange, n: nat)
    requires
        locks_agree(locks),
        range.solid(),
        n <= locks.len(),
    ensures
        match conflict_at(locks, owner, access_of(lock_type), range, n) {
            Some(i) => 0 <= i < n && locks[i].owner@ != owner && stands_against(locks[i], lock_type, range) && forall|j: int|
                0 <= j < i && (#[trigger] locks[j]).owner@ != owner ==> !stands_against(locks[j], lock_type, range),
            None => forall|j: int|
                0 <= j < n && (#[trigger] locks[j]).owner@ != owner ==> !stands_against(locks[j], lock_type, range),
        },
    decreases n,
{
    if n > 0 {
        lemma_first_conflict(locks, owner, lock_type, range, (n - 1) as nat);
        lemma_solid(locks, n - 1);
        lemma_against(locks[n - 1], lock_type, range);
    }
}

/// The conflict that is found is the first lock of another lock owner that stands against the request.
proof fn lemma_first_of_others(locks: Seq<HeldLock>, owner: (u64, Seq<u8>), lock_type: LockType, range: LockRange, n: nat)
    requires
        locks_agree(locks),
        range.solid(),
        n <= locks.len(),
    ensures
        match conflict_of_others(locks, owner, access_of(lock_type), range, n) {
            Some(i) => 0 <= i < n && locks[i].owner.owner@ != owner && stands_against(locks[i], lock_type, range)
                && forall|j: int|
                0 <= j < i && (#[trigger] locks[j]).owner.owner@ != owner ==> !stands_against(locks[j], lock_type, range),
            None => forall|j: int|
                0 <= j < n && (#[trigger] locks[j]).owner.owner@ != owner ==> !stands_against(locks[j], lock_type, range),
        },
    decreases n,
{
    if n > 0 {
        lemma_first_of_others(locks, owner, lock_type, range, (n - 1) as nat);
        lemma_solid(locks, n - 1);
        lemma_against(locks[n - 1], lock_type, range);
    }
}

/// A client is told the owner, the type and the bytes of the lock. The wire has no length for all bytes but the last
/// one: they are told as all of them.
pub open spec fn describes(told: LockDenied, lock: HeldLock) -> bool {
    &&& told.owner@ == lock.owner.owner@
    &&& told.lock_type == if lock.access == LockAccess::Write {
        LockType::Write
    } else {
        LockType::Read
    }
    &&& forall|byte: int|
        #![trigger byte_in(lock.range, byte)]
        is_byte(byte) ==> {
            &&& byte_in(lock.range, byte) ==> byte_meant(told.offset, told.length, byte)
            &&& byte_meant(told.offset, told.length, byte) && !(told.offset == 0 && byte == u64::MAX) ==> byte_in(
                lock.range,
                byte,
            )
        }
}

/// What a client is told of a lock describes it.
proof fn lemma_described(lock: HeldLock)
    requires
        lock.range.solid(),
    ensures
        describes(denial(lock), lock),
{
}

/// A lock is had only through an open that allows what it is for: reading where its type is one for reading, writing
/// where its type is one for writing. It is denied where a lock of another owner has one of its bytes and either of
/// the two is for writing, and the answer describes the first such lock. Nothing else but the number of ranges stands
/// in its way.
pub proof fn lemma_lock_judged(
    files: Map<Seq<u8>, FileView>,
    owner: LockStateOwner,
    wish: LockWish,
    open_access: ShareAccess,
    limits: Nfs4Limits,
)
    requires
        files_agree(files),
        wish.range.solid(),
    ensures
        ({
            let locks = file_at(files, wish.file).locks;
            let allowed = if for_writing(wish.lock_type) {
                open_access.write
            } else {
                open_access.read
            };
            let judged = locks_planned(files, owner, wish, open_access, limits);
            &&& !allowed ==> judged == Some(LockResult::Failed(NfsStatus::OpenMode))
            &&& forall|i: int|
                allowed && 0 <= i < locks.len() && (#[trigger] locks[i]).owner@ != owner@ && stands_against(
                    locks[i],
                    wish.lock_type,
                    wish.range,
                ) ==> (judged matches Some(LockResult::Denied(_)))
            &&& (judged matches Some(LockResult::Denied(told)) ==> exists|i: int|
                0 <= i < locks.len() && (#[trigger] locks[i]).owner@ != owner@ && stands_against(
                    locks[i],
                    wish.lock_type,
                    wish.range,
                ) && describes(told, locks[i]))
            &&& allowed && !(judged matches Some(LockResult::Denied(_))) ==> judged is None || judged == Some(
                LockResult::Failed(NfsStatus::Resource),
            )
        }),
{
    lemma_known_agrees(files, wish.file);
    let locks = file_at(files, wish.file).locks;
    lemma_first_conflict(locks, owner@, wish.lock_type, wish.range, locks.len());
    if let Some(i) = conflict_at(locks, owner@, access_of(wish.lock_type), wish.range, locks.len()) {
        lemma_solid(locks, i);
        lemma_described(locks[i]);
    }
}

/// The locks of a file, known or not, are in agreement.
proof fn lemma_known_agrees(files: Map<Seq<u8>, FileView>, file: RuntimeFile)
    requires
        files_agree(files),
    ensures
        locks_agree(file_at(files, file).locks),
{
    let locks = file_at(files, file).locks;
    if files.contains_key(file_place(file)) {
        assert(file_agrees(files[file_place(file)]));
    } else {
        assert(locks.len() == 0);
        assert forall|who: RangeOwner| pieces_normal(#[trigger] owned(locks, who, locks.len())) by {
            assert(owned(locks, who, 0).len() == 0);
        }
    }
}

/// The step is the one that a request for a lock leads to.
pub open spec fn lock_stepped(
    view: RuntimeView,
    after: RuntimeView,
    step: LockStep,
    wish: LockWish,
    locker: Locker,
    digest: OwnerRequestDigest,
    principal: PrincipalView,
    access: Option<u64>,
    now: u64,
) -> bool {
    match locker {
        Locker::New(locker) => new_lock_stepped(view, after, step, wish, locker, digest, principal, access, now),
        Locker::Existing(locker) => next_lock_stepped(view, after, step, wish, locker, digest, principal, access, now),
    }
}

/// The open is confirmed, is of the file, and allows what a lock of that type is for.
pub open spec fn open_allows(view: RuntimeView, open_state_id: StateId, file: RuntimeFile, lock_type: LockType) -> bool {
    &&& view.state.stateids.identified(open_state_id.other@) matches Ok(record)
    &&& record.file == file
    &&& record.payload matches StatePayload::Open(open)
    &&& open.confirmed
    &&& if for_writing(lock_type) {
        open.access.write
    } else {
        open.access.read
    }
}

/// Where a lock is granted, the open behind it is confirmed and allows it, no other owner has locked a byte of the range
/// for writing, and none has locked one at all where the lock is for writing. Once it is had, its owner holds the range,
/// for writing or for reading as its type says, and every other byte is held as it was.
pub proof fn lemma_grant_exclusive(
    view: RuntimeView,
    after: RuntimeView,
    plan: LockPlan,
    wish: LockWish,
    locker: Locker,
    digest: OwnerRequestDigest,
    principal: PrincipalView,
    access: Option<u64>,
    now: u64,
)
    requires
        files_agree(view.files),
        wish.range.solid(),
        lock_stepped(view, after, LockStep::Grant(plan), wish, locker, digest, principal, access, now),
    ensures
        plan.file == wish.file,
        plan.owner.open@ == plan.open_state_id.other@,
        open_allows(view, plan.open_state_id, wish.file, wish.lock_type),
        forall|who: RangeOwner, byte: int, write: bool| #[trigger]
            byte_held(file_at(view.files, wish.file).locks, who, byte, write) && is_byte(byte) && byte_in(wish.range, byte)
                && who != plan.owner@ ==> !write && !for_writing(wish.lock_type),
        forall|who: RangeOwner, byte: int, write: bool|
            is_byte(byte) ==> (#[trigger] byte_held(plan.locks@, who, byte, write) == if who == plan.owner@ && byte_in(
                wish.range,
                byte,
            ) {
                write == for_writing(wish.lock_type)
            } else {
                byte_held(file_at(view.files, wish.file).locks, who, byte, write)
            }),
{
    let locks = file_at(view.files, wish.file).locks;
    lemma_known_agrees(view.files, wish.file);
    match locker {
        Locker::New(locker) => {
            let record = new_lock_open(view.state, locker, view.limits)->Ok_0;
            let open = record.payload->Open_0;
            let asked = lock_asked(view, record.client, principal, wish, access, now);
            let running = new_lock_running(asked, locker, open.owner, digest);
            assert(running.files == view.files);
            assert(running.state.stateids == view.state.stateids);
            lemma_lock_judged(view.files, range_owner(locker), wish, open.access, view.limits);
        },
        Locker::Existing(locker) => {
            let record = next_lock_record(view.state, locker.lock_state_id)->Ok_0;
            let lock = record.payload->Lock_0;
            let asked = lock_asked(view, record.client, principal, wish, access, now);
            let running = next_lock_running(asked, locker, lock.owner, digest);
            assert(running.files == view.files);
            assert(running.state.stateids == view.state.stateids);
            let (open_access, _) = lock_origin(view.state, lock.open_state_id, record.client, wish.file)->Ok_0;
            lemma_lock_judged(view.files, held_owner(lock), wish, open_access, view.limits);
        },
    }
    assert(plan.locks@ == locks_with(locks, plan.owner, access_of(wish.lock_type), wish.range));
    assert forall|who: RangeOwner, byte: int, write: bool| #[trigger]
        byte_held(locks, who, byte, write) && is_byte(byte) && byte_in(wish.range, byte) && who
            != plan.owner@ implies !write && !for_writing(wish.lock_type) by {
        let i = choose|i: int| 0 <= i < locks.len() && held_at(#[trigger] locks[i], who, byte, write);
        assert(locks[i].owner@ != plan.owner@);
        assert(byte_in(locks[i].range, byte));
        assert(!stands_against(locks[i], wish.lock_type, wish.range));
    }
    assert forall|who: RangeOwner, byte: int, write: bool| is_byte(byte) implies (#[trigger] byte_held(
        plan.locks@,
        who,
        byte,
        write,
    ) == if who == plan.owner@ && byte_in(wish.range, byte) {
        write == for_writing(wish.lock_type)
    } else {
        byte_held(locks, who, byte, write)
    }) by {
        lemma_lock_bytes(locks, plan.owner, wish.lock_type, wish.range, who, byte, write);
    }
}

/// Two locks of different owners that were granted one after the other, and that have a byte in common, are both for
/// reading: where either of the two types is one for writing, the second lock is not granted.
pub proof fn lemma_two_locks(
    first: RuntimeView,
    first_after: RuntimeView,
    first_plan: LockPlan,
    first_wish: LockWish,
    first_locker: Locker,
    second: RuntimeView,
    second_after: RuntimeView,
    second_plan: LockPlan,
    second_wish: LockWish,
    second_locker: Locker,
    digests: (OwnerRequestDigest, OwnerRequestDigest),
    principals: (PrincipalView, PrincipalView),
    accesses: (Option<u64>, Option<u64>),
    times: (u64, u64),
    byte: int,
)
    requires
        files_agree(first.files),
        files_agree(second.files),
        first_wish.range.solid(),
        second_wish.range.solid(),
        lock_stepped(
            first,
            first_after,
            LockStep::Grant(first_plan),
            first_wish,
            first_locker,
            digests.0,
            principals.0,
            accesses.0,
            times.0,
        ),
        lock_stepped(
            second,
            second_after,
            LockStep::Grant(second_plan),
            second_wish,
            second_locker,
            digests.1,
            principals.1,
            accesses.1,
            times.1,
        ),
        first_wish.file == second_wish.file,
        file_at(second.files, second_wish.file).locks == first_plan.locks@,
        first_plan.owner@ != second_plan.owner@,
        is_byte(byte),
        byte_in(first_wish.range, byte),
        byte_in(second_wish.range, byte),
    ensures
        first_wish.lock_type == LockType::Read || first_wish.lock_type == LockType::BlockingRead,
        second_wish.lock_type == LockType::Read || second_wish.lock_type == LockType::BlockingRead,
{
    lemma_grant_exclusive(
        first,
        first_after,
        first_plan,
        first_wish,
        first_locker,
        digests.0,
        principals.0,
        accesses.0,
        times.0,
    );
    lemma_grant_exclusive(
        second,
        second_after,
        second_plan,
        second_wish,
        second_locker,
        digests.1,
        principals.1,
        accesses.1,
        times.1,
    );
    assert(byte_held(first_plan.locks@, first_plan.owner@, byte, for_writing(first_wish.lock_type)));
}

/// A request for a lock that finds its open, or its locks, in order is answered `Denied` where a lock of another owner
/// has one of its bytes and either of the two is for writing.
pub proof fn lemma_second_denied(
    view: RuntimeView,
    locker: OpenToLockOwner,
    next: ExistingLockOwner,
    held: ByteRangeLockState,
    client: u64,
    open_access: ShareAccess,
    previous: Set<u64>,
    wish: LockWish,
    who: RangeOwner,
    byte: int,
    write: bool,
)
    requires
        files_agree(view.files),
        wish.range.solid(),
        is_byte(byte),
        byte_in(wish.range, byte),
        byte_held(file_at(view.files, wish.file).locks, who, byte, write),
        write || for_writing(wish.lock_type),
        if for_writing(wish.lock_type) {
            open_access.write
        } else {
            open_access.read
        },
    ensures
        who != range_owner(locker)@ && !wish.reclaim && view.state.stateids.validated(
            locker.open_state_id,
            wish.file,
            true,
            false,
        ) is Ok && !view.state.lock_by_state.contains_key(lock_place(range_owner(locker)@, wish.file)) ==> (
        new_lock_verdict(view, locker, open_access, true, previous, wish) matches LockVerdict::Recorded(LockResult::Denied(_))),
        who != held_owner(held)@ && view.state.stateids.validated(next.lock_state_id, wish.file, false, true) is Ok
            && lock_origin(view.state, held.open_state_id, client, wish.file) == Ok::<(ShareAccess, bool), NfsStatus>(
            (open_access, true),
        ) ==> (next_lock_verdict(view, next, held, client, previous, wish) matches LockVerdict::Recorded(
            LockResult::Denied(_),
        )),
{
    let locks = file_at(view.files, wish.file).locks;
    let i = choose|i: int| 0 <= i < locks.len() && held_at(#[trigger] locks[i], who, byte, write);
    assert(byte_in(locks[i].range, byte));
    assert(stands_against(locks[i], wish.lock_type, wish.range));
    lemma_lock_judged(view.files, range_owner(locker), wish, open_access, view.limits);
    lemma_lock_judged(view.files, held_owner(held), wish, open_access, view.limits);
}

/// A question for a lock is answered by a lock of another lock owner that has one of its bytes, where either of the two
/// is for writing; where there is no such lock, the lock is free.
pub proof fn lemma_test_judged(view: RuntimeView, arguments: LockTestArgs, file: RuntimeFile, principal: PrincipalView, now: u64)
    requires
        files_agree(view.files),
        arguments.owner.owner@.len() <= view.limits.max_client_owner_size,
        view.clients.gated(arguments.owner.client_id, principal, false, now) is Ok,
        wire_range(arguments.offset, arguments.length) is Some,
    ensures
        ({
            let locks = file_at(view.files, file).locks;
            let range = wire_range(arguments.offset, arguments.length)->0;
            match lock_tested(view, arguments, file, principal, now).result {
                LockTestResult::Free => forall|i: int|
                    0 <= i < locks.len() && (#[trigger] locks[i]).owner.owner@ != arguments.owner@ ==> !stands_against(
                        locks[i],
                        arguments.lock_type,
                        range,
                    ),
                LockTestResult::Denied(told) => exists|i: int|
                    0 <= i < locks.len() && (#[trigger] locks[i]).owner.owner@ != arguments.owner@ && stands_against(
                        locks[i],
                        arguments.lock_type,
                        range,
                    ) && describes(told, locks[i]),
                LockTestResult::Failed(_) => false,
            }
        }),
{
    let locks = file_at(view.files, file).locks;
    let range = wire_range(arguments.offset, arguments.length)->0;
    lemma_known_agrees(view.files, file);
    lemma_wire_bytes(arguments.offset, arguments.length);
    lemma_first_of_others(locks, arguments.owner@, arguments.lock_type, range, locks.len());
    if let Some(i) = conflict_of_others(locks, arguments.owner@, access_of(arguments.lock_type), range, locks.len()) {
        lemma_solid(locks, i);
        lemma_described(locks[i]);
    }
}

/// Locks are given back where their owner holds a byte of the range, by its state id of now; where it holds none, the
/// answer is `LockRange`.
pub proof fn lemma_unlock_judged(
    view: RuntimeView,
    state_id: StateId,
    owner: LockStateOwner,
    file: RuntimeFile,
    range: LockRange,
)
    requires
        files_agree(view.files),
        range.solid(),
        view.state.stateids.validated(state_id, file, false, true) is Ok,
    ensures
        (forall|byte: int, write: bool|
            is_byte(byte) && byte_in(range, byte) ==> !#[trigger] byte_held(
                file_at(view.files, file).locks,
                owner@,
                byte,
                write,
            )) <==> unlock_verdict(view, state_id, owner, file, range) == UnlockVerdict::Recorded(NfsStatus::LockRange),
{
    let locks = file_at(view.files, file).locks;
    let own = owned(locks, owner@, locks.len());
    lemma_known_agrees(view.files, file);
    assert(pieces_normal(own));
    if holds_in(own, range) {
        let k = choose|k: int| 0 <= k < own.len() && ranges_overlap((#[trigger] own[k]).range, range);
        assert(own[k].range.solid());
        let byte = lemma_common_byte(own[k].range, range);
        assert(piece_holds(own[k], byte, own[k].access));
        lemma_held_pieces(locks, owner@, byte, own[k].access);
        assert(byte_held(locks, owner@, byte, own[k].access == LockAccess::Write));
    } else {
        assert forall|byte: int, write: bool| is_byte(byte) && byte_in(range, byte) implies !#[trigger] byte_held(
            locks,
            owner@,
            byte,
            write,
        ) by {
            let kind = if write {
                LockAccess::Write
            } else {
                LockAccess::Read
            };
            lemma_held_pieces(locks, owner@, byte, kind);
            if holds(own, byte, kind) {
                let k = choose|k: int| 0 <= k < own.len() && piece_holds(#[trigger] own[k], byte, kind);
                assert(ranges_overlap(own[k].range, range));
            }
        }
    }
}

} // verus!
