//! The values that the stateful operations of the protocol take and give.

use std::sync::Arc;

use vstd::prelude::*;

use crate::bytes::{array_equal, bytes_equal};
use crate::codec::{be32, be64, ExportId, StableObject};

verus! {

/// A byte string that several holders share.
pub type Name = Arc<Vec<u8>>;

/// Another holder of a shared value, by `std::sync::Arc::clone`: a pointer to the same value, which is therefore
/// the same value.
#[verifier::external_body]
pub(crate) fn share<T>(value: &Arc<T>) -> (shared: Arc<T>)
    ensures
        shared == *value,
{
    Arc::clone(value)
}

/// The outcome of an operation, as the protocol names it.
#[derive(Clone, Copy, Debug, PartialEq, Eq, Structural)]
pub enum NfsStatus {
    Success,
    Access,
    AdminRevoked,
    BadSequenceId,
    BadStateId,
    BadXdr,
    ClientIdInUse,
    Delay,
    Denied,
    Expired,
    Grace,
    Invalid,
    LeaseMoved,
    Locked,
    LockRange,
    LocksHeld,
    Moved,
    NoFileHandle,
    NoGrace,
    OldStateId,
    OpenMode,
    ReclaimBad,
    Resource,
    ServerFault,
    ShareDenied,
    StaleClientId,
    StaleStateId,
}

/// Whether an error of that status uses up the owner's sequence number.
pub open spec fn consumes_sequence(status: NfsStatus) -> bool {
    !(status == NfsStatus::StaleClientId || status == NfsStatus::StaleStateId || status == NfsStatus::BadStateId || status
        == NfsStatus::BadSequenceId || status == NfsStatus::BadXdr || status == NfsStatus::Resource || status
        == NfsStatus::NoFileHandle || status == NfsStatus::Moved)
}

/// Whether an error of that status uses up the owner's sequence number.
pub fn sequence_status_consumed(status: NfsStatus) -> (consumed: bool)
    ensures
        consumed == consumes_sequence(status),
{
    match status {
        NfsStatus::StaleClientId => false,
        NfsStatus::StaleStateId => false,
        NfsStatus::BadStateId => false,
        NfsStatus::BadSequenceId => false,
        NfsStatus::BadXdr => false,
        NfsStatus::Resource => false,
        NfsStatus::NoFileHandle => false,
        NfsStatus::Moved => false,
        _ => true,
    }
}

/// A file within its export.
#[derive(Clone, Copy, Debug, PartialEq, Eq, Structural)]
pub struct ObjectKey {
    pub file_id: u64,
    pub generation: u64,
}

/// A file of one of the exports.
#[derive(Clone, Copy, Debug, PartialEq, Eq, Structural)]
pub struct RuntimeFile {
    pub export_id: ExportId,
    pub object: ObjectKey,
}

/// The file's form in stable records.
pub open spec fn stable_of(file: RuntimeFile) -> StableObject {
    StableObject { export_id: file.export_id, file_id: file.object.file_id, generation: file.object.generation }
}

/// The file behind an object of a stable record.
pub open spec fn file_of(object: StableObject) -> RuntimeFile {
    RuntimeFile {
        export_id: object.export_id,
        object: ObjectKey { file_id: object.file_id, generation: object.generation },
    }
}

impl RuntimeFile {
    /// The file's form in stable records.
    pub fn stable(self) -> (object: StableObject)
        ensures
            object == stable_of(self),
    {
        StableObject { export_id: self.export_id, file_id: self.object.file_id, generation: self.object.generation }
    }
}

/// The file behind an object of a stable record.
pub fn runtime_file(object: StableObject) -> (file: RuntimeFile)
    ensures
        file == file_of(object),
{
    RuntimeFile {
        export_id: object.export_id,
        object: ObjectKey { file_id: object.file_id, generation: object.generation },
    }
}

/// A state object as a client names it: its identity, and how often it has changed.
#[derive(Clone, Copy, Debug, PartialEq, Eq)]
pub struct StateId {
    pub sequence_id: u32,
    pub other: [u8; 12],
}

impl StateId {
    /// Whether two state ids are the same.
    pub fn same(&self, with: &StateId) -> (same: bool)
        ensures
            same == (*self == *with),
    {
        let same = self.sequence_id == with.sequence_id && array_equal(&self.other, &with.other);
        proof {
            if self.other@ == with.other@ {
                assert(self.other =~= with.other);
            }
        }
        same
    }
}

/// The 16 bytes of a state id in stable records: the sequence, then the identity.
pub open spec fn token_of(state_id: StateId) -> Seq<u8> {
    be32(state_id.sequence_id) + state_id.other@
}

/// The identity within the 16 bytes of a state id.
pub open spec fn other_of(token: Seq<u8>) -> Seq<u8> {
    token.skip(4)
}

/// The 16 bytes of a state id in stable records.
pub fn state_token(state_id: StateId) -> (token: [u8; 16])
    ensures
        token@ == token_of(state_id),
{
    let s = state_id.sequence_id;
    let o = state_id.other;
    let token = [
        (s >> 24) as u8,
        (s >> 16) as u8,
        (s >> 8) as u8,
        s as u8,
        o[0],
        o[1],
        o[2],
        o[3],
        o[4],
        o[5],
        o[6],
        o[7],
        o[8],
        o[9],
        o[10],
        o[11],
    ];
    assert(token@ =~= token_of(state_id));
    token
}

/// The identity within the 16 bytes of a state id.
pub fn state_other(token: [u8; 16]) -> (other: [u8; 12])
    ensures
        other@ == other_of(token@),
{
    let other = [
        token[4],
        token[5],
        token[6],
        token[7],
        token[8],
        token[9],
        token[10],
        token[11],
        token[12],
        token[13],
        token[14],
        token[15],
    ];
    assert(other@ =~= other_of(token@));
    other
}

/// The digest of a request, by which a repetition is known.
#[derive(Clone, Copy, Debug, PartialEq, Eq)]
pub struct OwnerRequestDigest(pub [u8; 32]);

impl OwnerRequestDigest {
    /// Whether two digests are the same.
    pub fn same(&self, with: &OwnerRequestDigest) -> (same: bool)
        ensures
            same == (*self == *with),
    {
        let same = array_equal(&self.0, &with.0);
        proof {
            if self.0@ == with.0@ {
                assert(self.0 =~= with.0);
            }
        }
        same
    }
}

/// An open or lock owner: the client, and the owner's name there.
#[derive(Clone, Debug, PartialEq, Eq)]
pub struct OwnerKey {
    pub client_id: u64,
    pub owner: Name,
}

impl View for OwnerKey {
    type V = (u64, Seq<u8>);

    open spec fn view(&self) -> (u64, Seq<u8>) {
        (self.client_id, self.owner@)
    }
}

/// The bytes under which an owner is filed.
pub open spec fn owner_place(client_id: u64, owner: Seq<u8>) -> Seq<u8> {
    be64(client_id) + owner
}

/// The bytes under which a file is filed.
pub open spec fn file_place(file: RuntimeFile) -> Seq<u8> {
    be32(file.export_id.0) + (be64(file.object.file_id) + be64(file.object.generation))
}

/// Owners are filed apart.
pub proof fn lemma_owner_place(a: (u64, Seq<u8>), b: (u64, Seq<u8>))
    ensures
        (owner_place(a.0, a.1) == owner_place(b.0, b.1)) == (a == b),
{
    crate::codec::lemma_be64(a.0, seq![]);
    crate::codec::lemma_be64(b.0, seq![]);
    if owner_place(a.0, a.1) == owner_place(b.0, b.1) {
        assert(owner_place(a.0, a.1).take(8) =~= be64(a.0));
        assert(owner_place(b.0, b.1).take(8) =~= be64(b.0));
        assert(owner_place(a.0, a.1).skip(8) =~= a.1);
        assert(owner_place(b.0, b.1).skip(8) =~= b.1);
    }
}

/// Files are filed apart.
pub proof fn lemma_file_place(a: RuntimeFile, b: RuntimeFile)
    ensures
        file_place(a).len() == 20,
        (file_place(a) == file_place(b)) == (a == b),
{
    crate::codec::lemma_be32(a.export_id.0, seq![]);
    crate::codec::lemma_be32(b.export_id.0, seq![]);
    crate::codec::lemma_be64(a.object.file_id, seq![]);
    crate::codec::lemma_be64(b.object.file_id, seq![]);
    crate::codec::lemma_be64(a.object.generation, seq![]);
    crate::codec::lemma_be64(b.object.generation, seq![]);
    if file_place(a) == file_place(b) {
        assert(file_place(a).take(4) =~= be32(a.export_id.0));
        assert(file_place(b).take(4) =~= be32(b.export_id.0));
        assert(file_place(a).subrange(4, 12) =~= be64(a.object.file_id));
        assert(file_place(b).subrange(4, 12) =~= be64(b.object.file_id));
        assert(file_place(a).skip(12) =~= be64(a.object.generation));
        assert(file_place(b).skip(12) =~= be64(b.object.generation));
    }
}

impl OwnerKey {
    /// The same owner again.
    pub fn copy(&self) -> (copy: Self)
        ensures
            copy == *self,
    {
        OwnerKey { client_id: self.client_id, owner: share(&self.owner) }
    }

    /// Whether two owners are the same.
    pub fn same(&self, with: &OwnerKey) -> (same: bool)
        ensures
            same == (self@ == with@),
    {
        self.client_id == with.client_id && bytes_equal(self.owner.as_slice(), with.owner.as_slice())
    }

    /// The bytes under which the owner is filed.
    pub fn place(&self) -> (place: Vec<u8>)
        ensures
            place@ == owner_place(self@.0, self@.1),
    {
        let mut place = crate::transfer::number_key(self.client_id);
        append(&mut place, self.owner.as_slice());
        place
    }
}

/// Appends bytes.
pub fn append(list: &mut Vec<u8>, bytes: &[u8])
    ensures
        final(list)@ == old(list)@ + bytes@,
{
    let ghost before = list@;
    let mut i: usize = 0;
    while i < bytes.len()
        invariant
            i <= bytes@.len(),
            list@ == before + bytes@.take(i as int),
        decreases bytes@.len() - i,
    {
        list.push(bytes[i]);
        assert(bytes@.take(i + 1) =~= bytes@.take(i as int).push(bytes@[i as int]));
        assert(list@ =~= before + bytes@.take(i + 1));
        i += 1;
    }
    assert(bytes@.take(bytes@.len() as int) =~= bytes@);
}

/// Appends a number.
pub fn append_number(list: &mut Vec<u8>, value: u32)
    ensures
        final(list)@ == old(list)@ + be32(value),
{
    let ghost before = list@;
    list.push((value >> 24) as u8);
    list.push((value >> 16) as u8);
    list.push((value >> 8) as u8);
    list.push(value as u8);
    assert(list@ =~= before + be32(value));
}

impl RuntimeFile {
    /// The bytes under which the file is filed.
    pub fn place(&self) -> (place: Vec<u8>)
        ensures
            place@ == file_place(*self),
    {
        let mut place: Vec<u8> = Vec::new();
        append_number(&mut place, self.export_id.0);
        let file = crate::transfer::number_key(self.object.file_id);
        let generation = crate::transfer::number_key(self.object.generation);
        append(&mut place, file.as_slice());
        append(&mut place, generation.as_slice());
        assert(place@ =~= file_place(*self));
        place
    }
}

/// The bytes under which an owner's state of a file is filed.
pub open spec fn owner_file_place(owner: (u64, Seq<u8>), file: RuntimeFile) -> Seq<u8> {
    file_place(file) + owner_place(owner.0, owner.1)
}

/// The bytes under which an owner's state of a file is filed.
pub fn owner_file_key(owner: &OwnerKey, file: RuntimeFile) -> (key: Vec<u8>)
    ensures
        key@ == owner_file_place(owner@, file),
{
    let mut key = file.place();
    let place = owner.place();
    append(&mut key, place.as_slice());
    key
}

/// The owner of byte ranges: a lock owner together with the identity of the open state it locks through. One
/// lock owner has one sequence, but its ranges under two opens of a file stay apart.
#[derive(Clone, Debug, PartialEq, Eq)]
pub struct LockStateOwner {
    pub owner: OwnerKey,
    pub open: [u8; 12],
}

impl View for LockStateOwner {
    type V = ((u64, Seq<u8>), Seq<u8>);

    open spec fn view(&self) -> ((u64, Seq<u8>), Seq<u8>) {
        (self.owner@, self.open@)
    }
}

impl LockStateOwner {
    /// The same owner again.
    pub fn copy(&self) -> (copy: Self)
        ensures
            copy == *self,
    {
        LockStateOwner { owner: self.owner.copy(), open: self.open }
    }

    /// Whether two owners are the same.
    pub fn same(&self, with: &LockStateOwner) -> (same: bool)
        ensures
            same == (self@ == with@),
    {
        self.owner.same(&with.owner) && array_equal(&self.open, &with.open)
    }
}

/// The lock owner behind an owner of byte ranges.
pub open spec fn owner_of(owner: ((u64, Seq<u8>), Seq<u8>)) -> (u64, Seq<u8>) {
    owner.0
}

/// The bytes under which the lock state of a lock owner, an open and a file is filed.
pub open spec fn lock_place(owner: ((u64, Seq<u8>), Seq<u8>), file: RuntimeFile) -> Seq<u8> {
    file_place(file) + (owner.1 + owner_place(owner_of(owner).0, owner_of(owner).1))
}

/// The bytes under which the lock state of a lock owner, an open and a file is filed.
pub fn lock_key(owner: &LockStateOwner, file: RuntimeFile) -> (key: Vec<u8>)
    ensures
        key@ == lock_place(owner@, file),
{
    let mut key = file.place();
    append(&mut key, owner.open.as_slice());
    let place = owner.owner.place();
    append(&mut key, place.as_slice());
    assert(key@ =~= lock_place(owner@, file));
    key
}

/// A delegation is for reading, or for writing too.
#[derive(Clone, Copy, Debug, PartialEq, Eq, Structural)]
pub enum DelegationKind {
    Read,
    Write,
}

/// Whether a held delegation stands against an access.
pub open spec fn kinds_conflict(held: DelegationKind, requested: DelegationKind) -> bool {
    held == DelegationKind::Write || requested == DelegationKind::Write
}

/// Whether a held delegation stands against an access.
pub fn delegation_kinds_conflict(held: DelegationKind, requested: DelegationKind) -> (conflict: bool)
    ensures
        conflict == kinds_conflict(held, requested),
{
    match (held, requested) {
        (DelegationKind::Write, _) => true,
        (DelegationKind::Read, DelegationKind::Write) => true,
        (DelegationKind::Read, DelegationKind::Read) => false,
    }
}

/// The kind of lock that a client asks for.
#[derive(Clone, Copy, Debug, PartialEq, Eq, Structural)]
pub enum LockType {
    Read,
    Write,
    BlockingRead,
    BlockingWrite,
}

/// What a byte range is locked for.
#[derive(Clone, Copy, Debug, PartialEq, Eq, Structural)]
pub enum LockAccess {
    Read,
    Write,
}

/// What a lock of that type locks for.
pub open spec fn access_of(lock_type: LockType) -> LockAccess {
    match lock_type {
        LockType::Read => LockAccess::Read,
        LockType::BlockingRead => LockAccess::Read,
        LockType::Write => LockAccess::Write,
        LockType::BlockingWrite => LockAccess::Write,
    }
}

/// What a lock of that type locks for.
pub fn lock_access(lock_type: LockType) -> (access: LockAccess)
    ensures
        access == access_of(lock_type),
{
    match lock_type {
        LockType::Read | LockType::BlockingRead => LockAccess::Read,
        LockType::Write | LockType::BlockingWrite => LockAccess::Write,
    }
}

/// The delegation that stands against a lock.
pub open spec fn lock_kind(lock_type: LockType) -> DelegationKind {
    match access_of(lock_type) {
        LockAccess::Read => DelegationKind::Read,
        LockAccess::Write => DelegationKind::Write,
    }
}

/// The delegation that stands against a lock.
pub fn delegation_kind_for_lock(lock_type: LockType) -> (kind: DelegationKind)
    ensures
        kind == lock_kind(lock_type),
{
    match lock_type {
        LockType::Read | LockType::BlockingRead => DelegationKind::Read,
        LockType::Write | LockType::BlockingWrite => DelegationKind::Write,
    }
}

/// What a replayed reply restores beside itself.
#[derive(Clone, Copy, Debug, PartialEq, Eq, Structural)]
pub struct ReplayEffect {
    /// The file that is current after the operation.
    pub current_file: Option<RuntimeFile>,
    /// The client whose delegation state id was authenticated by the operation.
    pub stateid_renewal_client: Option<u64>,
}

/// No effect beside the reply.
pub open spec fn no_effect() -> ReplayEffect {
    ReplayEffect { current_file: None, stateid_renewal_client: None }
}

impl Default for ReplayEffect {
    fn default() -> (effect: Self)
        ensures
            effect == no_effect(),
    {
        ReplayEffect { current_file: None, stateid_renewal_client: None }
    }
}

/// How a directory changed.
#[derive(Clone, Copy, Debug, PartialEq, Eq, Structural)]
pub struct ChangeInfo {
    pub atomic: bool,
    pub before: u64,
    pub after: u64,
}

/// The delegation that goes with an open, in its encoded form.
#[derive(Clone, Debug, PartialEq, Eq)]
pub enum OpenDelegation {
    Absent,
    Read(Name),
    Write(Name),
}

/// The kind of delegation that is granted.
pub open spec fn granted_kind(delegation: OpenDelegation) -> Option<DelegationKind> {
    match delegation {
        OpenDelegation::Absent => None,
        OpenDelegation::Read(_) => Some(DelegationKind::Read),
        OpenDelegation::Write(_) => Some(DelegationKind::Write),
    }
}

impl OpenDelegation {
    /// The same delegation again.
    pub fn copy(&self) -> (copy: Self)
        ensures
            copy == *self,
    {
        match self {
            OpenDelegation::Absent => OpenDelegation::Absent,
            OpenDelegation::Read(body) => OpenDelegation::Read(share(body)),
            OpenDelegation::Write(body) => OpenDelegation::Write(share(body)),
        }
    }

    /// The kind of delegation that is granted.
    pub fn kind(&self) -> (kind: Option<DelegationKind>)
        ensures
            kind == granted_kind(*self),
    {
        match self {
            OpenDelegation::Absent => None,
            OpenDelegation::Read(_) => Some(DelegationKind::Read),
            OpenDelegation::Write(_) => Some(DelegationKind::Write),
        }
    }
}

/// A successful open.
#[derive(Clone, Debug, PartialEq, Eq)]
pub struct OpenOk {
    pub state_id: StateId,
    pub change_info: ChangeInfo,
    pub result_flags: u32,
    pub attributes_set: Arc<Vec<u32>>,
    pub delegation: OpenDelegation,
}

/// A lock that stands against the requested one.
#[derive(Clone, Debug, PartialEq, Eq)]
pub struct LockDenied {
    pub offset: u64,
    pub length: u64,
    pub lock_type: LockType,
    pub owner: OwnerKey,
}

/// The outcome of a lock request.
#[derive(Clone, Debug, PartialEq, Eq)]
pub enum LockResult {
    Granted(StateId),
    Denied(LockDenied),
    Failed(NfsStatus),
}

/// The status of a lock outcome.
pub open spec fn lock_status(result: LockResult) -> NfsStatus {
    match result {
        LockResult::Granted(_) => NfsStatus::Success,
        LockResult::Denied(_) => NfsStatus::Denied,
        LockResult::Failed(status) => status,
    }
}

impl LockResult {
    /// The status of a lock outcome.
    pub fn status(&self) -> (status: NfsStatus)
        ensures
            status == lock_status(*self),
    {
        match self {
            LockResult::Granted(_) => NfsStatus::Success,
            LockResult::Denied(_) => NfsStatus::Denied,
            LockResult::Failed(status) => *status,
        }
    }

    /// The same outcome again.
    pub fn copy(&self) -> (copy: Self)
        ensures
            copy == *self,
    {
        match self {
            LockResult::Granted(state_id) => LockResult::Granted(*state_id),
            LockResult::Denied(denied) => LockResult::Denied(
                LockDenied {
                    offset: denied.offset,
                    length: denied.length,
                    lock_type: denied.lock_type,
                    owner: denied.owner.copy(),
                },
            ),
            LockResult::Failed(status) => LockResult::Failed(*status),
        }
    }
}

/// The reply to a sequenced operation.
#[derive(Debug, PartialEq, Eq)]
pub enum ResOp {
    Open(Result<OpenOk, NfsStatus>),
    OpenConfirm(Result<StateId, NfsStatus>),
    OpenDowngrade(Result<StateId, NfsStatus>),
    Close(Result<StateId, NfsStatus>),
    Lock(LockResult),
    LockUnlock(Result<StateId, NfsStatus>),
}

/// What an owner may hold and how large things may grow.
#[derive(Clone, Copy, Debug, PartialEq, Eq, Structural)]
pub struct Nfs4Limits {
    pub max_clients: usize,
    pub max_open_owners_per_client: usize,
    pub max_open_contributions_per_state: usize,
    pub max_lock_owners_per_client: usize,
    pub max_lock_ranges_per_state: usize,
    pub max_state_objects: usize,
    pub max_client_owner_size: usize,
}

} // verus!
