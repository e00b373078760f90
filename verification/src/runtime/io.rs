//! Reads, writes and changes of size.

use vstd::prelude::*;

use crate::bytes::array_equal;
use crate::files::{delegation_safe, FileView, PendingOpen};
use crate::identity::{Principal, PrincipalView};
use crate::locks::{wire_range, LockRange};
use crate::protocol::{
    delegation_kinds_conflict, file_place, kinds_conflict, DelegationKind, LockAccess, NfsStatus, OwnerKey, RuntimeFile,
    StateId,
};
use crate::registry::{PendingDelegationAccess, PendingDelegationEligibility, StateRegistry, StateView};
use crate::runtime::open::OpenTargetReservation;
use crate::runtime::{find_free, free_number, Nfs4Runtime, RuntimeView};
use crate::share::{access_refused, conflicts_with_access, ShareAccess};
use crate::stateid::{
    is_uniform, map_stateid_error, stateid_status, uniform, OpenState, StateIdValidation, StatePayload,
};

verus! {

/// What is done to a file.
#[derive(Clone, Copy, Debug, PartialEq, Eq, Structural)]
pub enum IoAccess {
    Read,
    Write,
    SetSize,
}

/// The delegation that the access would need.
pub open spec fn io_kind(access: IoAccess) -> DelegationKind {
    match access {
        IoAccess::Read => DelegationKind::Read,
        _ => DelegationKind::Write,
    }
}

/// The access that the open must have.
pub open spec fn io_lock_access(access: IoAccess) -> LockAccess {
    match access {
        IoAccess::Read => LockAccess::Read,
        _ => LockAccess::Write,
    }
}

/// The access to the file that is needed.
pub open spec fn io_share(access: IoAccess) -> ShareAccess {
    ShareAccess { read: access == IoAccess::Read, write: access != IoAccess::Read }
}

/// The right to read or write; it holds until the access ends.
pub struct IoPermit {
    pub client_id: Option<u64>,
    pub access: u64,
}

/// Why a file may not be read or written, with the client where it is known who asks.
#[derive(Clone, Copy, Debug, PartialEq, Eq, Structural)]
pub struct IoValidationError {
    pub status: NfsStatus,
    pub client_id: Option<u64>,
}

/// What a state id stands for.
pub enum IoIdentity {
    Anonymous,
    ReadBypass,
    Held { client_id: u64, open: OpenState },
}

/// What a state id stands for; the one that bypasses shares does so for reads only.
pub open spec fn io_identified(state: StateView, state_id: StateId, file: RuntimeFile, access: IoAccess) -> Result<
    IoIdentity,
    IoValidationError,
> {
    match state.stateids.validated(state_id, file, true, true) {
        Err(error) => Err(IoValidationError { status: stateid_status(error), client_id: None }),
        Ok(StateIdValidation::Anonymous) => Ok(IoIdentity::Anonymous),
        Ok(StateIdValidation::ReadBypass) => if access == IoAccess::Read {
            Ok(IoIdentity::ReadBypass)
        } else {
            Ok(IoIdentity::Anonymous)
        },
        Ok(StateIdValidation::Active(record)) => match record.payload {
            StatePayload::Open(open) => Ok(IoIdentity::Held { client_id: record.client, open }),
            StatePayload::Lock(lock) => match state.stateids.identified(lock.open_state_id.other@) {
                Err(error) => Err(
                    IoValidationError { status: stateid_status(error), client_id: Some(record.client) },
                ),
                Ok(origin) => if origin.file != file || origin.client != record.client || !(origin.payload is Open) {
                    Err(IoValidationError { status: NfsStatus::BadStateId, client_id: Some(record.client) })
                } else {
                    Ok(IoIdentity::Held { client_id: record.client, open: origin.payload->Open_0 })
                },
            },
        },
    }
}

/// The client behind a state id.
pub open spec fn io_client(identity: IoIdentity) -> Option<u64> {
    match identity {
        IoIdentity::Held { client_id, .. } => Some(client_id),
        _ => None,
    }
}

/// Why a file may not be read or written, where the access could go on.
pub open spec fn io_refused(
    view: RuntimeView,
    identity: IoIdentity,
    file: RuntimeFile,
    access: IoAccess,
    offset: u64,
    length: u64,
) -> Option<NfsStatus> {
    if identity matches IoIdentity::Held { open, .. } && (!open.confirmed || !open.access.permits(
        io_lock_access(access),
    )) {
        Some(NfsStatus::OpenMode)
    } else if !view.files.contains_key(file_place(file)) {
        None
    } else if identity is Anonymous && access_refused(view.files[file_place(file)].shares, io_share(access)) {
        Some(NfsStatus::Locked)
    } else if !(identity is ReadBypass) && length != 0 && wire_range(offset, length) is None {
        Some(NfsStatus::Invalid)
    } else {
        None
    }
}

/// Why the client behind a state id may not go on, if it may not. A restart that is not over comes before a lease
/// that has moved.
pub open spec fn io_gate(view: RuntimeView, identity: IoIdentity, principal: PrincipalView, now: u64) -> Option<
    IoValidationError,
> {
    let grace = view.clients.recovery.in_grace(now);
    match io_client(identity) {
        None => if grace {
            Some(IoValidationError { status: NfsStatus::Grace, client_id: None })
        } else {
            None
        },
        Some(client_id) => match view.clients.touch_refused(client_id, principal, NfsStatus::Access, now) {
            Some(error) => if grace && error.client_id == Some(client_id) {
                Some(IoValidationError { status: NfsStatus::Grace, client_id: Some(client_id) })
            } else {
                Some(IoValidationError { status: error.status, client_id: error.client_id })
            },
            None => if grace {
                Some(IoValidationError { status: NfsStatus::Grace, client_id: Some(client_id) })
            } else {
                None
            },
        },
    }
}

/// Whether a file may be read or written: the client, and the number of the access.
pub open spec fn io_told(
    view: RuntimeView,
    state_id: StateId,
    file: RuntimeFile,
    access: IoAccess,
    offset: u64,
    length: u64,
    principal: PrincipalView,
    now: u64,
) -> Result<(Option<u64>, u64), IoValidationError> {
    match io_identified(view.state, state_id, file, access) {
        Err(error) => if view.clients.recovery.in_grace(now) {
            Err(IoValidationError { status: NfsStatus::Grace, client_id: None })
        } else {
            Err(error)
        },
        Ok(identity) => match io_gate(view, identity, principal, now) {
            Some(error) => Err(error),
            None => match view.state.access_number(
                file,
                io_client(identity),
                io_kind(access),
                access == IoAccess::SetSize,
                view.limits,
            ) {
                Err(status) => Err(IoValidationError { status, client_id: io_client(identity) }),
                Ok(id) => match io_refused(view, identity, file, access, offset, length) {
                    Some(status) => Err(IoValidationError { status, client_id: io_client(identity) }),
                    None => Ok((io_client(identity), id)),
                },
            },
        },
    }
}

/// The server once it is known whether a file may be read or written.
pub open spec fn io_after(
    view: RuntimeView,
    state_id: StateId,
    file: RuntimeFile,
    access: IoAccess,
    offset: u64,
    length: u64,
    principal: PrincipalView,
    now: u64,
) -> RuntimeView {
    match io_identified(view.state, state_id, file, access) {
        Err(_) => view,
        Ok(identity) => {
            let client = io_client(identity);
            let truncate = access == IoAccess::SetSize;
            let touched = RuntimeView {
                clients: match client {
                    Some(client_id) => view.clients.touched(client_id, principal, NfsStatus::Access, now),
                    None => view.clients,
                },
                ..view
            };
            if io_gate(view, identity, principal, now) is Some {
                touched
            } else {
                let begun = view.state.access_begun(file, client, io_kind(access), truncate, view.limits);
                RuntimeView {
                    state: match view.state.access_number(file, client, io_kind(access), truncate, view.limits) {
                        Err(_) => begun,
                        Ok(id) => if io_refused(view, identity, file, access, offset, length) is Some {
                            begun.access_ended(Some(id))
                        } else {
                            begun
                        },
                    },
                    ..touched
                }
            }
        },
    }
}

impl StateRegistry {
    /// What a state id stands for.
    fn identify_io(&self, state_id: StateId, file: RuntimeFile, access: IoAccess) -> (identity: Result<
        IoIdentity,
        IoValidationError,
    >)
        ensures
            identity == io_identified(self@, state_id, file, access),
    {
        match self.stateids.validate(state_id, file, true, true) {
            Err(error) => Err(IoValidationError { status: map_stateid_error(error), client_id: None }),
            Ok(StateIdValidation::Anonymous) => Ok(IoIdentity::Anonymous),
            Ok(StateIdValidation::ReadBypass) => if access == IoAccess::Read {
                Ok(IoIdentity::ReadBypass)
            } else {
                Ok(IoIdentity::Anonymous)
            },
            Ok(StateIdValidation::Active(record)) => {
                let client_id = record.client;
                match record.payload {
                    StatePayload::Open(open) => Ok(IoIdentity::Held { client_id, open }),
                    StatePayload::Lock(lock) => match self.stateids.identify(lock.open_state_id) {
                        Err(error) => Err(
                            IoValidationError { status: map_stateid_error(error), client_id: Some(client_id) },
                        ),
                        Ok(origin) => {
                            let bad = IoValidationError {
                                status: NfsStatus::BadStateId,
                                client_id: Some(client_id),
                            };
                            if origin.file != file || origin.client != client_id {
                                return Err(bad);
                            }
                            match origin.payload {
                                StatePayload::Open(open) => Ok(IoIdentity::Held { client_id, open }),
                                StatePayload::Lock(_) => Err(bad),
                            }
                        },
                    },
                }
            },
        }
    }
}

impl Nfs4Runtime {
    /// Why the client behind a state id may not go on; its lease is renewed.
    fn gate_io(&mut self, client: Option<u64>, principal: &Principal, now: u64, Ghost(identity): Ghost<IoIdentity>) -> (refused:
        Option<IoValidationError>)
        requires
            client == io_client(identity),
        ensures
            refused == io_gate(old(self)@, identity, principal@, now),
            final(self)@ == (RuntimeView {
                clients: match client {
                    Some(client_id) => old(self)@.clients.touched(client_id, principal@, NfsStatus::Access, now),
                    None => old(self)@.clients,
                },
                ..old(self)@
            }),
    {
        let grace = self.clients.recovery.in_grace(now);
        if let Some(client_id) = client {
            if let Err(error) = self.clients.touch(client_id, principal, NfsStatus::Access, now) {
                let known = match error.client_id {
                    Some(id) => id == client_id,
                    None => false,
                };
                if grace && known {
                    return Some(IoValidationError { status: NfsStatus::Grace, client_id: Some(client_id) });
                }
                return Some(IoValidationError { status: error.status, client_id: error.client_id });
            }
        }
        if grace {
            Some(IoValidationError { status: NfsStatus::Grace, client_id: client })
        } else {
            None
        }
    }

    /// Why a file may not be read or written, where the access could go on.
    fn refuse_io(&self, identity: &IoIdentity, file: RuntimeFile, access: IoAccess, offset: u64, length: u64) -> (refused:
        Option<NfsStatus>)
        ensures
            refused == io_refused(self@, *identity, file, access, offset, length),
    {
        let reads = access == IoAccess::Read;
        let (anonymous, bypass) = match identity {
            IoIdentity::Anonymous => (true, false),
            IoIdentity::ReadBypass => (false, true),
            IoIdentity::Held { client_id: _, open } => {
                let permitted = if reads {
                    open.access.read
                } else {
                    open.access.write
                };
                if !open.confirmed || !permitted {
                    return Some(NfsStatus::OpenMode);
                }
                (false, false)
            },
        };
        match self.files.get(file) {
            None => None,
            Some(state) => {
                let required = ShareAccess { read: reads, write: !reads };
                if anonymous && conflicts_with_access(&state.shares, required) {
                    return Some(NfsStatus::Locked);
                }
                if !bypass && length != 0 && LockRange::from_offset_length(offset, length).is_none() {
                    return Some(NfsStatus::Invalid);
                }
                None
            },
        }
    }

    /// Says whether a file may be read or written, and renews the lease of the client that asks.
    pub fn validate_io(
        &mut self,
        state_id: StateId,
        file: RuntimeFile,
        access: IoAccess,
        offset: u64,
        length: u64,
        principal: &Principal,
        now: u64,
    ) -> (permit: Result<IoPermit, IoValidationError>)
        ensures
            match io_told(old(self)@, state_id, file, access, offset, length, principal@, now) {
                Ok((client_id, id)) => permit == Ok::<IoPermit, IoValidationError>(IoPermit { client_id, access: id }),
                Err(error) => permit == Err::<IoPermit, IoValidationError>(error),
            },
            final(self)@ == io_after(old(self)@, state_id, file, access, offset, length, principal@, now),
    {
        let ghost before = self@;
        let identity = match self.state.identify_io(state_id, file, access) {
            Ok(identity) => identity,
            Err(error) => {
                if self.clients.recovery.in_grace(now) {
                    return Err(IoValidationError { status: NfsStatus::Grace, client_id: None });
                }
                return Err(error);
            },
        };
        let client = match &identity {
            IoIdentity::Held { client_id, open: _ } => Some(*client_id),
            _ => None,
        };
        if let Some(error) = self.gate_io(client, principal, now, Ghost(identity)) {
            return Err(error);
        }
        let kind = match access {
            IoAccess::Read => DelegationKind::Read,
            IoAccess::Write => DelegationKind::Write,
            IoAccess::SetSize => DelegationKind::Write,
        };
        let id = match self.state.begin_delegation_access(
            file,
            client,
            kind,
            access == IoAccess::SetSize,
            self.limits,
        ) {
            Ok(id) => id,
            Err(status) => {
                return Err(IoValidationError { status, client_id: client });
            },
        };
        if let Some(status) = self.refuse_io(&identity, file, access, offset, length) {
            self.state.end_delegation_access(Some(id));
            return Err(IoValidationError { status, client_id: client });
        }
        Ok(IoPermit { client_id: client, access: id })
    }

    /// Takes the right to read or write for a client whose delegation was checked.
    pub fn reserve_delegation_io(&mut self, file: RuntimeFile, client_id: u64, access: IoAccess) -> (permit: Result<
        IoPermit,
        NfsStatus,
    >)
        ensures
            match old(self)@.state.access_number(
                file,
                Some(client_id),
                io_kind(access),
                access == IoAccess::SetSize,
                old(self)@.limits,
            ) {
                Ok(id) => permit == Ok::<IoPermit, NfsStatus>(IoPermit { client_id: Some(client_id), access: id }),
                Err(status) => permit == Err::<IoPermit, NfsStatus>(status),
            },
            final(self)@ == (RuntimeView {
                state: old(self)@.state.access_begun(
                    file,
                    Some(client_id),
                    io_kind(access),
                    access == IoAccess::SetSize,
                    old(self)@.limits,
                ),
                ..old(self)@
            }),
    {
        let kind = match access {
            IoAccess::Read => DelegationKind::Read,
            IoAccess::Write => DelegationKind::Write,
            IoAccess::SetSize => DelegationKind::Write,
        };
        match self.state.begin_delegation_access(
            file,
            Some(client_id),
            kind,
            access == IoAccess::SetSize,
            self.limits,
        ) {
            Ok(id) => Ok(IoPermit { client_id: Some(client_id), access: id }),
            Err(status) => Err(status),
        }
    }

    /// Ends the right to read or write.
    pub fn end_io(&mut self, permit: IoPermit)
        ensures
            final(self)@ == (RuntimeView {
                state: old(self)@.state.access_ended(Some(permit.access)),
                ..old(self)@
            }),
    {
        self.state.end_delegation_access(Some(permit.access));
    }
}

/// Some access of another client stands against a delegation.
pub open spec fn grant_blocked(state: StateView, file: RuntimeFile, client_id: u64, kind: DelegationKind) -> bool {
    exists|id: u64| #[trigger]
        state.delegation_access.contains_key(id) && access_against(state.delegation_access[id], file, client_id, kind)
}

/// An access of another client stands against a delegation.
pub open spec fn access_against(access: PendingDelegationAccess, file: RuntimeFile, client_id: u64, kind: DelegationKind) -> bool {
    access.file == file && access.client_id != Some(client_id) && (access.truncate || kinds_conflict(
        kind,
        access.access,
    ))
}

/// Some delegation that may be granted stands against another one.
pub open spec fn grant_rivalled(state: StateView, file: RuntimeFile, client_id: u64, kind: DelegationKind) -> bool {
    exists|id: u64| #[trigger]
        state.delegation_eligibility.contains_key(id) && grants_rival(
            state.delegation_eligibility[id],
            file,
            client_id,
            kind,
        )
}

/// A delegation that may be granted stands against another one.
pub open spec fn grants_rival(
    candidate: PendingDelegationEligibility,
    file: RuntimeFile,
    client_id: u64,
    kind: DelegationKind,
) -> bool {
    candidate.file == file && (candidate.client_id == client_id || kinds_conflict(candidate.kind, kind)
        || kinds_conflict(kind, candidate.kind))
}

/// The open waits at the file.
pub open spec fn open_waits(file: FileView, reservation: u64, owner: OwnerKey) -> bool {
    exists|i: int|
        0 <= i < file.pending_opens.len() && (#[trigger] file.pending_opens[i]).reservation == reservation
            && file.pending_opens[i].owner@ == owner@
}

/// Why no delegation may be granted with an open.
pub open spec fn grant_refused(
    view: RuntimeView,
    target: OpenTargetReservation,
    client_id: u64,
    kind: DelegationKind,
) -> Option<NfsStatus> {
    let place = file_place(target.file);
    if target.owner.owner.client_id != client_id || target.delegation_eligibility is Some {
        Some(NfsStatus::ServerFault)
    } else if view.state.delegation_eligibility.dom().len() >= view.limits.max_state_objects {
        Some(NfsStatus::Resource)
    } else if grant_blocked(view.state, target.file, client_id, kind) || grant_rivalled(
        view.state,
        target.file,
        client_id,
        kind,
    ) {
        Some(NfsStatus::Delay)
    } else if !view.files.contains_key(place) || !open_waits(
        view.files[place],
        target.reservation,
        target.owner.owner,
    ) {
        Some(NfsStatus::ServerFault)
    } else if !delegation_safe(view.files[place], client_id, kind == DelegationKind::Write) {
        Some(NfsStatus::Delay)
    } else {
        None
    }
}

/// The number under which a delegation may be granted, and the number to go on with.
pub open spec fn grant_number(view: RuntimeView) -> (Option<u64>, u64) {
    free_number(
        view.state.delegation_eligibility.dom(),
        view.state.next_delegation_eligibility,
        (view.limits.max_state_objects + 1) as nat,
    )
}

/// Whether the open waits at the file.
fn check_open_waits(pending: &Vec<PendingOpen>, reservation: u64, owner: &OwnerKey, Ghost(file): Ghost<FileView>) -> (waits: bool)
    requires
        file.pending_opens == pending@,
    ensures
        waits == open_waits(file, reservation, *owner),
{
    let mut i: usize = 0;
    while i < pending.len()
        invariant
            i <= pending@.len(),
            file.pending_opens == pending@,
            forall|j: int|
                0 <= j < i ==> !((#[trigger] file.pending_opens[j]).reservation == reservation
                    && file.pending_opens[j].owner@ == owner@),
        decreases pending@.len() - i,
    {
        assert(file.pending_opens[i as int] == pending@[i as int]);
        if pending[i].reservation == reservation && pending[i].owner.same(owner) {
            return true;
        }
        i += 1;
    }
    false
}

impl StateRegistry {
    /// Whether some access of another client stands against a delegation.
    fn blocks_grant(&self, file: RuntimeFile, client_id: u64, kind: DelegationKind) -> (blocked: bool)
        ensures
            blocked == grant_blocked(self@, file, client_id, kind),
    {
        let list = &self.delegation_access;
        list.order_known();
        let ghost keys = list.keys();
        let total = list.len();
        let mut i: usize = 0;
        while i < total
            invariant
                i <= total,
                total == keys.len(),
                keys == list.keys(),
                list@ == self@.delegation_access,
                keys.len() == list.values().len(),
                forall|j: int| 0 <= j < keys.len() ==> list@.contains_key(#[trigger] keys[j]),
                forall|j: int| 0 <= j < keys.len() ==> list@[#[trigger] keys[j]] == list.values()[j],
                forall|j: int| 0 <= j < i ==> !access_against(list@[#[trigger] keys[j]], file, client_id, kind),
            decreases total - i,
        {
            let access = *list.value_at(i);
            assert(list@[keys[i as int]] == access);
            let same = match access.client_id {
                Some(id) => id == client_id,
                None => false,
            };
            if access.file == file && !same && (access.truncate || delegation_kinds_conflict(kind, access.access)) {
                assert(self@.delegation_access.contains_key(keys[i as int]));
                return true;
            }
            i += 1;
        }
        proof {
            assert forall|id: u64| #[trigger] self@.delegation_access.contains_key(id) implies !access_against(
                self@.delegation_access[id],
                file,
                client_id,
                kind,
            ) by {
                assert(keys.contains(id));
            }
        }
        false
    }

    /// Whether some delegation that may be granted stands against another one.
    fn rivals_grant(&self, file: RuntimeFile, client_id: u64, kind: DelegationKind) -> (rivalled: bool)
        ensures
            rivalled == grant_rivalled(self@, file, client_id, kind),
    {
        let list = &self.delegation_eligibility;
        list.order_known();
        let ghost keys = list.keys();
        let total = list.len();
        let mut i: usize = 0;
        while i < total
            invariant
                i <= total,
                total == keys.len(),
                keys == list.keys(),
                list@ == self@.delegation_eligibility,
                keys.len() == list.values().len(),
                forall|j: int| 0 <= j < keys.len() ==> list@.contains_key(#[trigger] keys[j]),
                forall|j: int| 0 <= j < keys.len() ==> list@[#[trigger] keys[j]] == list.values()[j],
                forall|j: int| 0 <= j < i ==> !grants_rival(list@[#[trigger] keys[j]], file, client_id, kind),
            decreases total - i,
        {
            let candidate = *list.value_at(i);
            assert(list@[keys[i as int]] == candidate);
            if candidate.file == file && (candidate.client_id == client_id || delegation_kinds_conflict(
                candidate.kind,
                kind,
            ) || delegation_kinds_conflict(kind, candidate.kind)) {
                assert(self@.delegation_eligibility.contains_key(keys[i as int]));
                return true;
            }
            i += 1;
        }
        proof {
            assert forall|id: u64| #[trigger] self@.delegation_eligibility.contains_key(id) implies !grants_rival(
                self@.delegation_eligibility[id],
                file,
                client_id,
                kind,
            ) by {
                assert(keys.contains(id));
            }
        }
        false
    }
}

impl Nfs4Runtime {
    /// Makes sure that a delegation may be granted with an open.
    pub fn reserve_delegation_eligibility(
        &mut self,
        target: &mut OpenTargetReservation,
        client_id: u64,
        kind: DelegationKind,
    ) -> (reserved: Result<u64, NfsStatus>)
        ensures
            match grant_refused(old(self)@, *old(target), client_id, kind) {
                Some(status) => {
                    &&& reserved == Err::<u64, NfsStatus>(status)
                    &&& final(self)@ == old(self)@
                    &&& *final(target) == *old(target)
                },
                None => {
                    let found = grant_number(old(self)@);
                    &&& reserved == match found.0 {
                        Some(id) => Ok::<u64, NfsStatus>(id),
                        None => Err::<u64, NfsStatus>(NfsStatus::Resource),
                    }
                    &&& final(self)@ == (RuntimeView {
                        state: StateView {
                            delegation_eligibility: match found.0 {
                                Some(id) => old(self)@.state.delegation_eligibility.insert(
                                    id,
                                    PendingDelegationEligibility {
                                        file: old(target).file,
                                        client_id,
                                        kind,
                                        open_reservation: old(target).reservation,
                                    },
                                ),
                                None => old(self)@.state.delegation_eligibility,
                            },
                            next_delegation_eligibility: found.1,
                            ..old(self)@.state
                        },
                        ..old(self)@
                    })
                    &&& *final(target) == (OpenTargetReservation { delegation_eligibility: found.0, ..*old(target) })
                },
            },
    {
        if target.owner.owner.client_id != client_id || target.delegation_eligibility.is_some() {
            return Err(NfsStatus::ServerFault);
        }
        if self.state.delegation_eligibility.len() >= self.limits.max_state_objects {
            return Err(NfsStatus::Resource);
        }
        if self.state.blocks_grant(target.file, client_id, kind) || self.state.rivals_grant(
            target.file,
            client_id,
            kind,
        ) {
            return Err(NfsStatus::Delay);
        }
        match self.files.get(target.file) {
            None => {
                return Err(NfsStatus::ServerFault);
            },
            Some(file) => {
                if !check_open_waits(
                    &file.pending_opens,
                    target.reservation,
                    &target.owner.owner,
                    Ghost(file@),
                ) {
                    return Err(NfsStatus::ServerFault);
                }
                if !file.delegation_share_eligible(client_id, kind == DelegationKind::Write) {
                    return Err(NfsStatus::Delay);
                }
            },
        }
        let (found, next) = find_free(
            &self.state.delegation_eligibility,
            self.state.next_delegation_eligibility,
            self.limits.max_state_objects,
        );
        self.state.next_delegation_eligibility = next;
        match found {
            Some(id) => {
                let _ = self.state.delegation_eligibility.insert(
                    id,
                    PendingDelegationEligibility {
                        file: target.file,
                        client_id,
                        kind,
                        open_reservation: target.reservation,
                    },
                );
                target.delegation_eligibility = Some(id);
                Ok(id)
            },
            None => Err(NfsStatus::Resource),
        }
    }

    /// Takes note that no delegation is to be granted any more.
    pub fn end_delegation_eligibility(&mut self, id: u64)
        ensures
            final(self)@ == (RuntimeView {
                state: StateView {
                    delegation_eligibility: old(self)@.state.delegation_eligibility.remove(id),
                    ..old(self)@.state
                },
                ..old(self)@
            }),
    {
        let _ = self.state.delegation_eligibility.remove(id);
    }

    /// Takes the right to access a file, against which no delegation may be granted while it lasts.
    pub fn begin_delegation_access(
        &mut self,
        file: RuntimeFile,
        client: Option<u64>,
        access: DelegationKind,
        truncate: bool,
    ) -> (begun: Result<u64, NfsStatus>)
        ensures
            begun == old(self)@.state.access_number(file, client, access, truncate, old(self)@.limits),
            final(self)@ == (RuntimeView {
                state: old(self)@.state.access_begun(file, client, access, truncate, old(self)@.limits),
                ..old(self)@
            }),
    {
        self.state.begin_delegation_access(file, client, access, truncate, self.limits)
    }

    /// Ends an access to a file.
    pub fn end_delegation_access(&mut self, id: u64)
        ensures
            final(self)@ == (RuntimeView { state: old(self)@.state.access_ended(Some(id)), ..old(self)@ }),
    {
        self.state.end_delegation_access(Some(id));
    }

    /// The client behind a state id of an open or of locks; a special state id has none. No lease is renewed.
    pub fn identify_stateid_client(&self, state_id: StateId, file: RuntimeFile, principal: &Principal) -> (client: Result<
        Option<u64>,
        NfsStatus,
    >)
        ensures
            client == stateid_client(self@, state_id, file, principal@),
    {
        if is_uniform(&state_id.other, 0) {
            return if state_id.sequence_id == 0 {
                Ok(None)
            } else {
                Err(NfsStatus::BadStateId)
            };
        }
        if is_uniform(&state_id.other, 0xff) {
            return if state_id.sequence_id == u32::MAX {
                Ok(None)
            } else {
                Err(NfsStatus::BadStateId)
            };
        }
        let record = match self.state.stateids.identify(state_id) {
            Ok(record) => record,
            Err(error) => {
                return Err(map_stateid_error(error));
            },
        };
        if record.file != file {
            return Err(NfsStatus::BadStateId);
        }
        match self.clients.confirmed_client_record(record.client, principal, NfsStatus::StaleClientId) {
            Ok(_) => Ok(Some(record.client)),
            Err(status) => Err(status),
        }
    }

    /// Whether a state id is one that this run could have given to an open or to locks.
    pub fn owns_open_or_lock_stateid_namespace(&self, state_id: StateId) -> (owned: bool)
        ensures
            owned == (state_id.other@.take(4) == crate::codec::be32(self@.state.stateids.boot_tag)),
    {
        let tag = self.state.stateids.boot_tag;
        let bytes: [u8; 4] = [(tag >> 24) as u8, (tag >> 16) as u8, (tag >> 8) as u8, tag as u8];
        let first: [u8; 4] = [state_id.other[0], state_id.other[1], state_id.other[2], state_id.other[3]];
        assert(bytes@ =~= crate::codec::be32(tag));
        assert(first@ =~= state_id.other@.take(4));
        array_equal(&first, &bytes)
    }

    /// Whether a file is held for an open by a pin.
    pub fn is_open_pin_active(&self, file: RuntimeFile, pin: [u8; 16]) -> (active: bool)
        ensures
            active == exists|place: Seq<u8>| #[trigger] pin_held(self@.state, place, file, pin@),
    {
        let links = &self.state.open_by_owner_file;
        links.order_known();
        let ghost keys = links.keys();
        let total = links.len();
        let mut i: usize = 0;
        while i < total
            invariant
                i <= total,
                total == keys.len(),
                keys == links.keys(),
                links@ == self@.state.open_by_owner_file,
                keys.len() == links.values().len(),
                forall|j: int| 0 <= j < keys.len() ==> links@.contains_key(#[trigger] keys[j]),
                forall|j: int| 0 <= j < keys.len() ==> links@[#[trigger] keys[j]] == links.values()[j],
                forall|j: int| 0 <= j < i ==> !pin_held(self@.state, #[trigger] keys[j], file, pin@),
            decreases total - i,
        {
            let link = links.value_at(i);
            assert(links@[keys[i as int]] == *link);
            if link.file == file {
                if let Ok(record) = self.state.stateids.identify(link.state_id) {
                    if let StatePayload::Open(open) = record.payload {
                        if array_equal(&open.pin, &pin) {
                            assert(pin_held(self@.state, keys[i as int], file, pin@));
                            return true;
                        }
                    }
                }
            }
            i += 1;
        }
        proof {
            assert forall|place: Seq<u8>| !#[trigger] pin_held(self@.state, place, file, pin@) by {
                if links@.contains_key(place) {
                    assert(keys.contains(place));
                }
            }
        }
        false
    }
}

/// The open at a place holds the file by a pin.
pub open spec fn pin_held(state: StateView, place: Seq<u8>, file: RuntimeFile, pin: Seq<u8>) -> bool {
    &&& state.open_by_owner_file.contains_key(place)
    &&& state.open_by_owner_file[place].file == file
    &&& state.stateids.identified(
        state.open_by_owner_file[place].state_id.other@,
    ) matches Ok(record) && record.payload matches StatePayload::Open(open) && open.pin@ == pin
}

/// The client behind a state id of an open or of locks; a special state id has none.
pub open spec fn stateid_client(view: RuntimeView, state_id: StateId, file: RuntimeFile, principal: PrincipalView) -> Result<
    Option<u64>,
    NfsStatus,
> {
    if uniform(state_id.other@, 0) {
        if state_id.sequence_id == 0 {
            Ok(None)
        } else {
            Err(NfsStatus::BadStateId)
        }
    } else if uniform(state_id.other@, 0xff) {
        if state_id.sequence_id == u32::MAX {
            Ok(None)
        } else {
            Err(NfsStatus::BadStateId)
        }
    } else {
        match view.state.stateids.identified(state_id.other@) {
            Err(error) => Err(stateid_status(error)),
            Ok(record) => if record.file != file {
                Err(NfsStatus::BadStateId)
            } else {
                match view.clients.confirmed(record.client, principal, NfsStatus::StaleClientId) {
                    Ok(_) => Ok(Some(record.client)),
                    Err(status) => Err(status),
                }
            },
        }
    }
}

} // verus!
