//! What a permission to read or write means: who asks, what it has open, and what the others deny.

use vstd::prelude::*;

use crate::identity::PrincipalView;
use crate::protocol::{file_place, DelegationKind, NfsStatus, RuntimeFile, StateId};
use crate::runtime::io::{io_client, io_gate, io_identified, io_kind, io_told, IoAccess, IoValidationError};
use crate::runtime::sharing::lemma_denied_to_strangers;
use crate::runtime::{free_number, grant_against, RuntimeView};
use crate::stateid::{uniform, OpenState, StatePayload, TableView};

verus! {

/// The open that a state id stands for: its own, or the one through which its locks are held.
pub open spec fn open_behind(table: TableView, other: Seq<u8>) -> Option<OpenState> {
    match table.identified(other) {
        Err(_) => None,
        Ok(record) => match record.payload {
            StatePayload::Open(open) => Some(open),
            StatePayload::Lock(lock) => match table.identified(lock.open_state_id.other@) {
                Err(_) => None,
                Ok(origin) => match origin.payload {
                    StatePayload::Open(open) => Some(open),
                    StatePayload::Lock(_) => None,
                },
            },
        },
    }
}

/// All bytes of a state id's identity are that one.
pub open spec fn all_bytes(state_id: StateId, byte: u8) -> bool {
    forall|k: int| 0 <= k < 12 ==> #[trigger] state_id.other@[k] == byte
}

/// The identity that is made of one byte.
proof fn lemma_all_bytes(state_id: StateId, byte: u8)
    ensures
        uniform(state_id.other@, byte) == all_bytes(state_id, byte),
{
    if all_bytes(state_id, byte) {
        assert(state_id.other@ =~= Seq::new(12, |i: int| byte));
    }
}

/// A number that is free is not taken.
proof fn lemma_free(taken: Set<u64>, next: u64, tries: nat)
    ensures
        free_number(taken, next, tries).0 matches Some(id) ==> !taken.contains(id),
    decreases tries,
{
    if tries > 0 && taken.contains(next) {
        lemma_free(taken, crate::runtime::number_after(next), (tries - 1) as nat);
    }
}

/// Whoever is allowed to read through a state id of its own has a confirmed open that allows reading, and whoever is
/// allowed to write, or to change the size, has a confirmed open that allows writing. The state id is the one of now,
/// and of that file.
pub proof fn lemma_io_needs_open(
    view: RuntimeView,
    state_id: StateId,
    file: RuntimeFile,
    access: IoAccess,
    offset: u64,
    length: u64,
    principal: PrincipalView,
    now: u64,
)
    requires
        io_told(view, state_id, file, access, offset, length, principal, now) is Ok,
        !all_bytes(state_id, 0),
        !all_bytes(state_id, 0xff),
    ensures
        open_behind(view.state.stateids, state_id.other@) is Some,
        ({
            let open = open_behind(view.state.stateids, state_id.other@)->0;
            &&& open.confirmed
            &&& access == IoAccess::Read ==> open.access.read
            &&& access == IoAccess::Write ==> open.access.write
            &&& access == IoAccess::SetSize ==> open.access.write
        }),
        view.state.stateids.identified(state_id.other@) matches Ok(record) && {
            &&& record.file == file
            &&& record.sequence_id == state_id.sequence_id
            &&& (io_told(view, state_id, file, access, offset, length, principal, now)->Ok_0).0 == Some(record.client)
        },
{
    lemma_all_bytes(state_id, 0);
    lemma_all_bytes(state_id, 0xff);
}

/// Whoever has a state id of its own, may go on, and has no confirmed open that allows what is asked for, is answered
/// `OpenMode`.
pub proof fn lemma_io_open_mode(
    view: RuntimeView,
    state_id: StateId,
    file: RuntimeFile,
    access: IoAccess,
    offset: u64,
    length: u64,
    principal: PrincipalView,
    now: u64,
)
    requires
        !all_bytes(state_id, 0),
        !all_bytes(state_id, 0xff),
        io_identified(view.state, state_id, file, access) is Ok,
        io_gate(view, io_identified(view.state, state_id, file, access)->Ok_0, principal, now) is None,
        view.state.access_number(
            file,
            io_client(io_identified(view.state, state_id, file, access)->Ok_0),
            io_kind(access),
            access == IoAccess::SetSize,
            view.limits,
        ) is Ok,
        open_behind(view.state.stateids, state_id.other@) matches Some(open) && (!open.confirmed || (access
            == IoAccess::Read && !open.access.read) || (access != IoAccess::Read && !open.access.write)),
    ensures
        io_told(view, state_id, file, access, offset, length, principal, now) matches Err(error) && error.status
            == NfsStatus::OpenMode && error.client_id is Some,
{
    lemma_all_bytes(state_id, 0);
    lemma_all_bytes(state_id, 0xff);
}

/// Whoever reads without a state id reads no file that an open denies to read, and whoever writes or changes the size
/// without one does it to no file that an open denies to write. The identity of all ones reads past the opens, and
/// counts as none for anything else.
pub proof fn lemma_io_of_strangers(
    view: RuntimeView,
    state_id: StateId,
    file: RuntimeFile,
    access: IoAccess,
    offset: u64,
    length: u64,
    principal: PrincipalView,
    now: u64,
)
    requires
        all_bytes(state_id, 0) || all_bytes(state_id, 0xff),
        view.files.contains_key(file_place(file)),
    ensures
        ({
            let told = io_told(view, state_id, file, access, offset, length, principal, now);
            let shares = view.files[file_place(file)].shares;
            let denied = exists|i: int|
                0 <= i < shares.len() && if access == IoAccess::Read {
                    (#[trigger] shares[i]).deny.read
                } else {
                    shares[i].deny.write
                };
            &&& told is Ok ==> (told->Ok_0).0 is None && state_id.sequence_id == if all_bytes(state_id, 0) {
                0
            } else {
                u32::MAX
            }
            &&& told is Ok && !(all_bytes(state_id, 0xff) && access == IoAccess::Read) ==> !denied
            &&& denied && !(all_bytes(state_id, 0xff) && access == IoAccess::Read) && state_id.sequence_id == (if all_bytes(
                state_id,
                0,
            ) {
                0
            } else {
                u32::MAX
            }) && !view.clients.recovery.in_grace(now) && view.state.access_number(
                file,
                None,
                io_kind(access),
                access == IoAccess::SetSize,
                view.limits,
            ) is Ok ==> told == Err::<(Option<u64>, u64), IoValidationError>(
                IoValidationError { status: NfsStatus::Locked, client_id: None },
            )
        }),
{
    lemma_all_bytes(state_id, 0);
    lemma_all_bytes(state_id, 0xff);
    if all_bytes(state_id, 0) && all_bytes(state_id, 0xff) {
        assert(state_id.other@[0] == 0u8);
        assert(state_id.other@[0] == 0xffu8);
    }
    lemma_denied_to_strangers(view.files[file_place(file)].shares, crate::runtime::io::io_share(access));
}

/// Nobody reads or writes while clients reclaim, nor past the last byte that a file can have. A client that does is
/// registered, has sent the request itself, and has renewed its lease in time, or never had to.
pub proof fn lemma_io_in_order(
    view: RuntimeView,
    state_id: StateId,
    file: RuntimeFile,
    access: IoAccess,
    offset: u64,
    length: u64,
    principal: PrincipalView,
    now: u64,
)
    requires
        io_told(view, state_id, file, access, offset, length, principal, now) is Ok,
    ensures
        view.clients.recovery.grace_until matches Some(until) ==> now >= until,
        (io_told(view, state_id, file, access, offset, length, principal, now)->Ok_0).0 matches Some(client) ==> {
            &&& !view.clients.expired.contains(client)
            &&& view.clients.confirmed(client, principal, NfsStatus::Access) is Ok
            &&& view.clients.leases.renewed.contains_key(client) ==> now - view.clients.leases.renewed[client]
                < view.clients.leases.duration || now < view.clients.leases.renewed[client]
        },
        view.files.contains_key(file_place(file)) && !(all_bytes(state_id, 0xff) && access == IoAccess::Read) ==> length
            == 0 || length == u64::MAX || offset + length <= u64::MAX,
{
    lemma_all_bytes(state_id, 0xff);
}

/// Nobody reads a file for whose writing another client may be granted a delegation, and nobody writes or cuts a file
/// for which another client may be granted any. The access goes on under a number of its own.
pub proof fn lemma_io_spares_delegations(
    view: RuntimeView,
    state_id: StateId,
    file: RuntimeFile,
    access: IoAccess,
    offset: u64,
    length: u64,
    principal: PrincipalView,
    now: u64,
    id: u64,
)
    requires
        io_told(view, state_id, file, access, offset, length, principal, now) is Ok,
        view.state.delegation_eligibility.contains_key(id),
        view.state.delegation_eligibility[id].file == file,
        (io_told(view, state_id, file, access, offset, length, principal, now)->Ok_0).0 != Some(
            view.state.delegation_eligibility[id].client_id,
        ),
    ensures
        access == IoAccess::Read,
        view.state.delegation_eligibility[id].kind == DelegationKind::Read,
        !view.state.delegation_access.contains_key(
            (io_told(view, state_id, file, access, offset, length, principal, now)->Ok_0).1,
        ),
{
    let client = (io_told(view, state_id, file, access, offset, length, principal, now)->Ok_0).0;
    assert(!grant_against(
        view.state.delegation_eligibility[id],
        file,
        client,
        io_kind(access),
        access == IoAccess::SetSize,
    ));
    lemma_free(
        view.state.delegation_access.dom(),
        view.state.next_delegation_access,
        (view.limits.max_state_objects + 1) as nat,
    );
}

} // verus!
