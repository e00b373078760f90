//! The records that the journal keeps, their keys, and what each of them stands for.

use vstd::prelude::*;

use crate::bytes::{array_equal, bytes_equal, copy_bytes};
use crate::codec::{ExportId, StableObject};
use crate::error::StableJournalError;

verus! {

pub const SCHEMA_VERSION: u32 = 4;

pub const TAG_SCHEMA: u8 = 0;

pub const TAG_SERVER_IDENTITY: u8 = 1;

pub const TAG_BOOT: u8 = 2;

pub const TAG_HANDLE_KEY: u8 = 3;

pub const TAG_CLIENT: u8 = 10;

pub const TAG_OPEN: u8 = 11;

pub const TAG_LOCK: u8 = 12;

pub const TAG_DELEGATION: u8 = 13;

pub const TAG_REVOCATION: u8 = 14;

pub const TAG_REPLAY: u8 = 15;

pub const TAG_MIGRATION: u8 = 16;

pub const MAX_DELEGATION_OBJECT_ID_BYTES: usize = 1024;

pub const MAX_OPEN_CONTRIBUTION_VARIANTS: usize = 12;

/// The class under which the store files a record.
#[derive(Clone, Copy, Debug, PartialEq, Eq, Structural)]
pub enum StableRecordKind {
    Server,
    Client,
    OpenOwner,
    LockOwner,
    Migration,
}

/// The number of a class.
pub open spec fn kind_code(kind: StableRecordKind) -> u8 {
    match kind {
        StableRecordKind::Server => 0,
        StableRecordKind::Client => 1,
        StableRecordKind::OpenOwner => 2,
        StableRecordKind::LockOwner => 3,
        StableRecordKind::Migration => 4,
    }
}

/// The class that a number stands for.
pub open spec fn kind_of_code(code: u8) -> Result<StableRecordKind, StableJournalError> {
    if code == 0 {
        Ok(StableRecordKind::Server)
    } else if code == 1 {
        Ok(StableRecordKind::Client)
    } else if code == 2 {
        Ok(StableRecordKind::OpenOwner)
    } else if code == 3 {
        Ok(StableRecordKind::LockOwner)
    } else if code == 4 {
        Ok(StableRecordKind::Migration)
    } else {
        Err(StableJournalError::Corrupt("invalid stable record kind"))
    }
}

/// The number of a class.
pub fn stable_kind_code(kind: StableRecordKind) -> (code: u8)
    ensures
        code == kind_code(kind),
{
    match kind {
        StableRecordKind::Server => 0,
        StableRecordKind::Client => 1,
        StableRecordKind::OpenOwner => 2,
        StableRecordKind::LockOwner => 3,
        StableRecordKind::Migration => 4,
    }
}

/// The class that a number stands for.
pub fn stable_kind_from_code(code: u8) -> (kind: Result<StableRecordKind, StableJournalError>)
    ensures
        kind == kind_of_code(code),
{
    match code {
        0 => Ok(StableRecordKind::Server),
        1 => Ok(StableRecordKind::Client),
        2 => Ok(StableRecordKind::OpenOwner),
        3 => Ok(StableRecordKind::LockOwner),
        4 => Ok(StableRecordKind::Migration),
        _ => Err(StableJournalError::Corrupt("invalid stable record kind")),
    }
}

/// A record's key as the store sees it.
#[derive(Clone, Debug, PartialEq, Eq)]
pub struct StableKey {
    pub kind: StableRecordKind,
    pub key: Vec<u8>,
}

/// What a storage key stands for.
#[verifier::ext_equal]
pub struct StableKeyView {
    pub kind: StableRecordKind,
    pub key: Seq<u8>,
}

impl View for StableKey {
    type V = StableKeyView;

    open spec fn view(&self) -> StableKeyView {
        StableKeyView { kind: self.kind, key: self.key@ }
    }
}

impl StableKeyView {
    /// The key as one byte string: its class, then its bytes.
    pub open spec fn flat(self) -> Seq<u8> {
        seq![kind_code(self.kind)] + self.key
    }
}

/// Distinct keys have distinct byte strings.
pub proof fn lemma_flat_injective(a: StableKeyView, b: StableKeyView)
    ensures
        a.flat() == b.flat() <==> a == b,
{
    if a.flat() == b.flat() {
        assert(a.flat()[0] == b.flat()[0]);
        assert(a.flat().skip(1) =~= a.key);
        assert(b.flat().skip(1) =~= b.key);
    }
}

impl StableKey {
    /// A key of its own with the same contents.
    pub fn copy(&self) -> (copy: Self)
        ensures
            copy@ == self@,
    {
        StableKey { kind: self.kind, key: copy_bytes(self.key.as_slice()) }
    }

    /// The key as one byte string.
    pub fn flat(&self) -> (bytes: Vec<u8>)
        ensures
            bytes@ == self@.flat(),
    {
        let mut bytes: Vec<u8> = Vec::new();
        bytes.push(stable_kind_code(self.kind));
        bytes.extend_from_slice(self.key.as_slice());
        assert(bytes@ =~= self@.flat());
        bytes
    }

    /// Whether two keys are the same.
    pub fn same(&self, other: &Self) -> (same: bool)
        ensures
            same == (self@ == other@),
    {
        self.kind == other.kind && bytes_equal(self.key.as_slice(), other.key.as_slice())
    }
}

/// One stored record.
#[derive(Clone, Debug, PartialEq, Eq)]
pub struct StableRecord {
    pub key: StableKey,
    pub payload: Vec<u8>,
}

/// What a stored record stands for.
#[verifier::ext_equal]
pub struct StableRecordView {
    pub key: StableKeyView,
    pub payload: Seq<u8>,
}

impl View for StableRecord {
    type V = StableRecordView;

    open spec fn view(&self) -> StableRecordView {
        StableRecordView { key: self.key@, payload: self.payload@ }
    }
}

impl StableRecord {
    /// A record of its own with the same contents.
    pub fn copy(&self) -> (copy: Self)
        ensures
            copy@ == self@,
    {
        StableRecord { key: self.key.copy(), payload: copy_bytes(self.payload.as_slice()) }
    }
}

/// What a list of stored records stands for.
pub open spec fn record_views(records: Seq<StableRecord>) -> Seq<StableRecordView> {
    Seq::new(records.len(), |i: int| records[i]@)
}

/// A list of records of its own with the same contents.
pub fn copy_records(records: &Vec<StableRecord>) -> (copy: Vec<StableRecord>)
    ensures
        record_views(copy@) == record_views(records@),
{
    let mut copy: Vec<StableRecord> = Vec::new();
    let mut i: usize = 0;
    while i < records.len()
        invariant
            i <= records.len(),
            copy.len() == i,
            forall|j: int| 0 <= j < i ==> (#[trigger] copy@[j])@ == records@[j]@,
        decreases records.len() - i,
    {
        copy.push(records[i].copy());
        i += 1;
    }
    assert(record_views(copy@) =~= record_views(records@));
    copy
}

/// The owner sequence that a cached reply belongs to.
#[derive(Clone, Copy, Debug, PartialEq, Eq, Structural)]
pub enum ReplayOwnerKind {
    Open,
    Lock,
}

/// The number of an owner kind.
pub open spec fn owner_kind_code(kind: ReplayOwnerKind) -> u8 {
    match kind {
        ReplayOwnerKind::Open => 0,
        ReplayOwnerKind::Lock => 1,
    }
}

/// The owner kind that a number stands for.
pub open spec fn owner_kind_of_code(code: u8) -> Result<ReplayOwnerKind, StableJournalError> {
    if code == 0 {
        Ok(ReplayOwnerKind::Open)
    } else if code == 1 {
        Ok(ReplayOwnerKind::Lock)
    } else {
        Err(StableJournalError::Corrupt("invalid replay-owner kind"))
    }
}

impl ReplayOwnerKind {
    /// The number of this owner kind.
    pub fn code(self) -> (code: u8)
        ensures
            code == owner_kind_code(self),
    {
        match self {
            ReplayOwnerKind::Open => 0,
            ReplayOwnerKind::Lock => 1,
        }
    }

    /// The owner kind that a number stands for.
    pub fn from_code(code: u8) -> (kind: Result<Self, StableJournalError>)
        ensures
            kind == owner_kind_of_code(code),
    {
        match code {
            0 => Ok(ReplayOwnerKind::Open),
            1 => Ok(ReplayOwnerKind::Lock),
            _ => Err(StableJournalError::Corrupt("invalid replay-owner kind")),
        }
    }
}

/// Why a state was revoked.
#[derive(Clone, Copy, Debug, PartialEq, Eq, Structural)]
pub enum RevocationReason {
    LeaseExpired,
    Administration,
    Conflict,
    Migration,
}

/// The number of a reason.
pub open spec fn reason_code(reason: RevocationReason) -> u8 {
    match reason {
        RevocationReason::LeaseExpired => 0,
        RevocationReason::Administration => 1,
        RevocationReason::Conflict => 2,
        RevocationReason::Migration => 3,
    }
}

/// The reason that a number stands for.
pub open spec fn reason_of_code(code: u8) -> Result<RevocationReason, StableJournalError> {
    if code == 0 {
        Ok(RevocationReason::LeaseExpired)
    } else if code == 1 {
        Ok(RevocationReason::Administration)
    } else if code == 2 {
        Ok(RevocationReason::Conflict)
    } else if code == 3 {
        Ok(RevocationReason::Migration)
    } else {
        Err(StableJournalError::Corrupt("invalid revocation reason"))
    }
}

impl RevocationReason {
    /// The number of this reason.
    pub fn code(self) -> (code: u8)
        ensures
            code == reason_code(self),
    {
        match self {
            RevocationReason::LeaseExpired => 0,
            RevocationReason::Administration => 1,
            RevocationReason::Conflict => 2,
            RevocationReason::Migration => 3,
        }
    }

    /// The reason that a number stands for.
    pub fn from_code(code: u8) -> (reason: Result<Self, StableJournalError>)
        ensures
            reason == reason_of_code(code),
    {
        match code {
            0 => Ok(RevocationReason::LeaseExpired),
            1 => Ok(RevocationReason::Administration),
            2 => Ok(RevocationReason::Conflict),
            3 => Ok(RevocationReason::Migration),
            _ => Err(StableJournalError::Corrupt("invalid revocation reason")),
        }
    }
}

/// How far a migration has come.
#[derive(Clone, Copy, Debug, PartialEq, Eq, Structural)]
pub enum MigrationPhase {
    Staged,
    Committed,
    /// The source durably armed cutover and must remain fenced after restart.
    SourceMoved,
}

/// The number of a phase.
pub open spec fn phase_code(phase: MigrationPhase) -> u8 {
    match phase {
        MigrationPhase::Staged => 0,
        MigrationPhase::Committed => 1,
        MigrationPhase::SourceMoved => 2,
    }
}

/// The phase that a number stands for.
pub open spec fn phase_of_code(code: u8) -> Result<MigrationPhase, StableJournalError> {
    if code == 0 {
        Ok(MigrationPhase::Staged)
    } else if code == 1 {
        Ok(MigrationPhase::Committed)
    } else if code == 2 {
        Ok(MigrationPhase::SourceMoved)
    } else {
        Err(StableJournalError::Corrupt("invalid migration phase"))
    }
}

impl MigrationPhase {
    /// The number of this phase.
    pub fn code(self) -> (code: u8)
        ensures
            code == phase_code(self),
    {
        match self {
            MigrationPhase::Staged => 0,
            MigrationPhase::Committed => 1,
            MigrationPhase::SourceMoved => 2,
        }
    }

    /// The phase that a number stands for.
    pub fn from_code(code: u8) -> (phase: Result<Self, StableJournalError>)
        ensures
            phase == phase_of_code(code),
    {
        match code {
            0 => Ok(MigrationPhase::Staged),
            1 => Ok(MigrationPhase::Committed),
            2 => Ok(MigrationPhase::SourceMoved),
            _ => Err(StableJournalError::Corrupt("invalid migration phase")),
        }
    }
}

/// The typed key of a record.
#[derive(Clone, Debug, PartialEq, Eq)]
pub enum JournalKey {
    Schema,
    ServerIdentity,
    Boot,
    HandleKey,
    Client { client_id: u64 },
    Open { state_token: [u8; 16] },
    Lock { state_token: [u8; 16] },
    Delegation { state_token: [u8; 16] },
    Revocation { state_token: [u8; 16] },
    Replay { client_id: u64, owner_kind: ReplayOwnerKind, owner: Vec<u8> },
    Migration { export_id: ExportId, transfer_id: [u8; 16] },
}

/// What a typed key stands for.
#[verifier::ext_equal]
pub enum KeyView {
    Schema,
    ServerIdentity,
    Boot,
    HandleKey,
    Client { client_id: u64 },
    Open { state_token: Seq<u8> },
    Lock { state_token: Seq<u8> },
    Delegation { state_token: Seq<u8> },
    Revocation { state_token: Seq<u8> },
    Replay { client_id: u64, owner_kind: ReplayOwnerKind, owner: Seq<u8> },
    Migration { export_id: ExportId, transfer_id: Seq<u8> },
}

impl View for JournalKey {
    type V = KeyView;

    open spec fn view(&self) -> KeyView {
        match *self {
            JournalKey::Schema => KeyView::Schema,
            JournalKey::ServerIdentity => KeyView::ServerIdentity,
            JournalKey::Boot => KeyView::Boot,
            JournalKey::HandleKey => KeyView::HandleKey,
            JournalKey::Client { client_id } => KeyView::Client { client_id },
            JournalKey::Open { state_token } => KeyView::Open { state_token: state_token@ },
            JournalKey::Lock { state_token } => KeyView::Lock { state_token: state_token@ },
            JournalKey::Delegation { state_token } => KeyView::Delegation { state_token: state_token@ },
            JournalKey::Revocation { state_token } => KeyView::Revocation { state_token: state_token@ },
            JournalKey::Replay { client_id, owner_kind, owner } => KeyView::Replay {
                client_id,
                owner_kind,
                owner: owner@,
            },
            JournalKey::Migration { export_id, transfer_id } => KeyView::Migration {
                export_id,
                transfer_id: transfer_id@,
            },
        }
    }
}

/// Identities and tokens have their fixed lengths.
pub open spec fn key_shaped(key: KeyView) -> bool {
    match key {
        KeyView::Open { state_token } => state_token.len() == 16,
        KeyView::Lock { state_token } => state_token.len() == 16,
        KeyView::Delegation { state_token } => state_token.len() == 16,
        KeyView::Revocation { state_token } => state_token.len() == 16,
        KeyView::Migration { transfer_id, .. } => transfer_id.len() == 16,
        _ => true,
    }
}

/// The tag of a key.
pub open spec fn key_tag(key: KeyView) -> u8 {
    match key {
        KeyView::Schema => TAG_SCHEMA,
        KeyView::ServerIdentity => TAG_SERVER_IDENTITY,
        KeyView::Boot => TAG_BOOT,
        KeyView::HandleKey => TAG_HANDLE_KEY,
        KeyView::Client { .. } => TAG_CLIENT,
        KeyView::Open { .. } => TAG_OPEN,
        KeyView::Lock { .. } => TAG_LOCK,
        KeyView::Delegation { .. } => TAG_DELEGATION,
        KeyView::Revocation { .. } => TAG_REVOCATION,
        KeyView::Replay { .. } => TAG_REPLAY,
        KeyView::Migration { .. } => TAG_MIGRATION,
    }
}

/// The class under which a key is filed.
pub open spec fn key_kind(key: KeyView) -> StableRecordKind {
    match key {
        KeyView::Schema => StableRecordKind::Server,
        KeyView::ServerIdentity => StableRecordKind::Server,
        KeyView::Boot => StableRecordKind::Server,
        KeyView::HandleKey => StableRecordKind::Server,
        KeyView::Revocation { .. } => StableRecordKind::Server,
        KeyView::Client { .. } => StableRecordKind::Client,
        KeyView::Delegation { .. } => StableRecordKind::Client,
        KeyView::Open { .. } => StableRecordKind::OpenOwner,
        KeyView::Lock { .. } => StableRecordKind::LockOwner,
        KeyView::Replay { owner_kind, .. } => match owner_kind {
            ReplayOwnerKind::Open => StableRecordKind::OpenOwner,
            ReplayOwnerKind::Lock => StableRecordKind::LockOwner,
        },
        KeyView::Migration { .. } => StableRecordKind::Migration,
    }
}

/// Keys that only the journal itself may write.
pub open spec fn key_reserved(key: KeyView) -> bool {
    ||| key is Schema
    ||| key is ServerIdentity
    ||| key is Boot
    ||| key is HandleKey
    ||| key is Migration
}

impl JournalKey {
    /// The tag of this key.
    pub fn tag(&self) -> (tag: u8)
        ensures
            tag == key_tag(self@),
    {
        match self {
            JournalKey::Schema => TAG_SCHEMA,
            JournalKey::ServerIdentity => TAG_SERVER_IDENTITY,
            JournalKey::Boot => TAG_BOOT,
            JournalKey::HandleKey => TAG_HANDLE_KEY,
            JournalKey::Client { .. } => TAG_CLIENT,
            JournalKey::Open { .. } => TAG_OPEN,
            JournalKey::Lock { .. } => TAG_LOCK,
            JournalKey::Delegation { .. } => TAG_DELEGATION,
            JournalKey::Revocation { .. } => TAG_REVOCATION,
            JournalKey::Replay { .. } => TAG_REPLAY,
            JournalKey::Migration { .. } => TAG_MIGRATION,
        }
    }

    /// The class under which this key is filed.
    pub fn storage_kind(&self) -> (kind: StableRecordKind)
        ensures
            kind == key_kind(self@),
    {
        match self {
            JournalKey::Schema => StableRecordKind::Server,
            JournalKey::ServerIdentity => StableRecordKind::Server,
            JournalKey::Boot => StableRecordKind::Server,
            JournalKey::HandleKey => StableRecordKind::Server,
            JournalKey::Revocation { .. } => StableRecordKind::Server,
            JournalKey::Client { .. } => StableRecordKind::Client,
            JournalKey::Delegation { .. } => StableRecordKind::Client,
            JournalKey::Open { .. } => StableRecordKind::OpenOwner,
            JournalKey::Lock { .. } => StableRecordKind::LockOwner,
            JournalKey::Replay { owner_kind, .. } => match owner_kind {
                ReplayOwnerKind::Open => StableRecordKind::OpenOwner,
                ReplayOwnerKind::Lock => StableRecordKind::LockOwner,
            },
            JournalKey::Migration { .. } => StableRecordKind::Migration,
        }
    }

    /// Whether only the journal itself may write this key.
    pub fn is_reserved(&self) -> (reserved: bool)
        ensures
            reserved == key_reserved(self@),
    {
        match self {
            JournalKey::Schema => true,
            JournalKey::ServerIdentity => true,
            JournalKey::Boot => true,
            JournalKey::HandleKey => true,
            JournalKey::Migration { .. } => true,
            _ => false,
        }
    }

    /// A key of its own with the same contents.
    pub fn copy(&self) -> (copy: Self)
        ensures
            copy@ == self@,
    {
        match self {
            JournalKey::Schema => JournalKey::Schema,
            JournalKey::ServerIdentity => JournalKey::ServerIdentity,
            JournalKey::Boot => JournalKey::Boot,
            JournalKey::HandleKey => JournalKey::HandleKey,
            JournalKey::Client { client_id } => JournalKey::Client { client_id: *client_id },
            JournalKey::Open { state_token } => JournalKey::Open { state_token: *state_token },
            JournalKey::Lock { state_token } => JournalKey::Lock { state_token: *state_token },
            JournalKey::Delegation { state_token } => JournalKey::Delegation { state_token: *state_token },
            JournalKey::Revocation { state_token } => JournalKey::Revocation { state_token: *state_token },
            JournalKey::Replay { client_id, owner_kind, owner } => JournalKey::Replay {
                client_id: *client_id,
                owner_kind: *owner_kind,
                owner: copy_bytes(owner.as_slice()),
            },
            JournalKey::Migration { export_id, transfer_id } => JournalKey::Migration {
                export_id: *export_id,
                transfer_id: *transfer_id,
            },
        }
    }

    /// Whether two keys are the same.
    pub fn same(&self, other: &Self) -> (same: bool)
        ensures
            same == (self@ == other@),
    {
        match (self, other) {
            (JournalKey::Schema, JournalKey::Schema) => true,
            (JournalKey::ServerIdentity, JournalKey::ServerIdentity) => true,
            (JournalKey::Boot, JournalKey::Boot) => true,
            (JournalKey::HandleKey, JournalKey::HandleKey) => true,
            (JournalKey::Client { client_id: a }, JournalKey::Client { client_id: b }) => *a == *b,
            (JournalKey::Open { state_token: a }, JournalKey::Open { state_token: b }) => array_equal(a, b),
            (JournalKey::Lock { state_token: a }, JournalKey::Lock { state_token: b }) => array_equal(a, b),
            (JournalKey::Delegation { state_token: a }, JournalKey::Delegation { state_token: b }) => array_equal(a, b),
            (JournalKey::Revocation { state_token: a }, JournalKey::Revocation { state_token: b }) => array_equal(a, b),
            (
                JournalKey::Replay { client_id: a, owner_kind: k, owner: o },
                JournalKey::Replay { client_id: b, owner_kind: l, owner: p },
            ) => *a == *b && *k == *l && bytes_equal(o.as_slice(), p.as_slice()),
            (
                JournalKey::Migration { export_id: a, transfer_id: t },
                JournalKey::Migration { export_id: b, transfer_id: u },
            ) => *a == *b && array_equal(t, u),
            _ => false,
        }
    }
}

/// The version of the journal's layout.
#[derive(Clone, Copy, Debug, PartialEq, Eq, Structural)]
pub struct SchemaRecord {
    pub version: u32,
}

/// The identity that the server keeps over restarts.
#[derive(Clone, Copy, Debug, PartialEq, Eq)]
pub struct ServerIdentityRecord {
    pub identity: [u8; 16],
}

/// One run of the server.
#[derive(Clone, Copy, Debug, PartialEq, Eq)]
pub struct BootRecord {
    pub verifier: [u8; 8],
    pub boot_tag: u32,
    pub started_at_unix_seconds: i64,
    pub clean_shutdown: bool,
}

/// The key material of file handles.
#[derive(Clone, Copy, PartialEq, Eq)]
pub struct HandleKeyRecord {
    pub instance_id: [u8; 8],
    pub secret: [u8; 32],
}

impl ServerIdentityRecord {
    /// Whether two identities are the same.
    pub fn same(&self, other: &Self) -> (same: bool)
        ensures
            same == (self@ == other@),
    {
        array_equal(&self.identity, &other.identity)
    }
}

impl View for ServerIdentityRecord {
    type V = Seq<u8>;

    open spec fn view(&self) -> Seq<u8> {
        self.identity@
    }
}

/// What a run of the server stands for.
#[verifier::ext_equal]
pub struct BootView {
    pub verifier: Seq<u8>,
    pub boot_tag: u32,
    pub started_at_unix_seconds: i64,
    pub clean_shutdown: bool,
}

impl View for BootRecord {
    type V = BootView;

    open spec fn view(&self) -> BootView {
        BootView {
            verifier: self.verifier@,
            boot_tag: self.boot_tag,
            started_at_unix_seconds: self.started_at_unix_seconds,
            clean_shutdown: self.clean_shutdown,
        }
    }
}

impl BootRecord {
    /// Whether two runs are the same.
    pub fn same(&self, other: &Self) -> (same: bool)
        ensures
            same == (self@ == other@),
    {
        array_equal(&self.verifier, &other.verifier) && self.boot_tag == other.boot_tag
            && self.started_at_unix_seconds == other.started_at_unix_seconds && self.clean_shutdown
            == other.clean_shutdown
    }
}

/// What handle key material stands for.
#[verifier::ext_equal]
pub struct HandleKeyView {
    pub instance_id: Seq<u8>,
    pub secret: Seq<u8>,
}

impl View for HandleKeyRecord {
    type V = HandleKeyView;

    open spec fn view(&self) -> HandleKeyView {
        HandleKeyView { instance_id: self.instance_id@, secret: self.secret@ }
    }
}

impl HandleKeyRecord {
    /// Whether two keys are the same.
    pub fn same(&self, other: &Self) -> (same: bool)
        ensures
            same == (self@ == other@),
    {
        array_equal(&self.instance_id, &other.instance_id) && array_equal(&self.secret, &other.secret)
    }
}

/// A client's registration.
#[derive(Clone, Debug, PartialEq, Eq)]
pub struct ClientRecord {
    pub client_id: u64,
    pub owner: Vec<u8>,
    pub verifier: [u8; 8],
    pub canonical_principal: Vec<u8>,
    pub confirmed: bool,
}

/// What a client's registration stands for.
#[verifier::ext_equal]
pub struct ClientView {
    pub client_id: u64,
    pub owner: Seq<u8>,
    pub verifier: Seq<u8>,
    pub canonical_principal: Seq<u8>,
    pub confirmed: bool,
}

impl View for ClientRecord {
    type V = ClientView;

    open spec fn view(&self) -> ClientView {
        ClientView {
            client_id: self.client_id,
            owner: self.owner@,
            verifier: self.verifier@,
            canonical_principal: self.canonical_principal@,
            confirmed: self.confirmed,
        }
    }
}

/// How many OPEN requests of one access and deny mode a state still carries.
#[derive(Clone, Copy, Debug, PartialEq, Eq, Structural)]
pub struct OpenContributionRecord {
    pub share_access: u32,
    pub share_deny: u32,
    pub count: u32,
}

/// An open state.
#[derive(Clone, Debug, PartialEq, Eq)]
pub struct OpenRecord {
    pub state_token: [u8; 16],
    pub client_id: u64,
    pub owner: Vec<u8>,
    pub object: StableObject,
    pub share_access: u32,
    pub share_deny: u32,
    /// Exact multiplicity of the still-effective OPEN requests whose union is
    /// represented by `share_access` and `share_deny`.
    pub contributions: Vec<OpenContributionRecord>,
}

/// What an open state stands for.
#[verifier::ext_equal]
pub struct OpenView {
    pub state_token: Seq<u8>,
    pub client_id: u64,
    pub owner: Seq<u8>,
    pub object: StableObject,
    pub share_access: u32,
    pub share_deny: u32,
    pub contributions: Seq<OpenContributionRecord>,
}

impl View for OpenRecord {
    type V = OpenView;

    open spec fn view(&self) -> OpenView {
        OpenView {
            state_token: self.state_token@,
            client_id: self.client_id,
            owner: self.owner@,
            object: self.object,
            share_access: self.share_access,
            share_deny: self.share_deny,
            contributions: self.contributions@,
        }
    }
}

/// One locked byte range; a length of zero reaches to the end of the file.
#[derive(Clone, Copy, Debug, PartialEq, Eq, Structural)]
pub struct LockRangeRecord {
    pub offset: u64,
    pub length: u64,
    pub write: bool,
}

/// A byte-range lock state.
#[derive(Clone, Debug, PartialEq, Eq)]
pub struct LockRecord {
    pub state_token: [u8; 16],
    pub open_state_token: [u8; 16],
    pub client_id: u64,
    pub owner: Vec<u8>,
    pub object: StableObject,
    /// Complete normalized range set for this lock owner and file.
    pub ranges: Vec<LockRangeRecord>,
}

/// What a lock state stands for.
#[verifier::ext_equal]
pub struct LockView {
    pub state_token: Seq<u8>,
    pub open_state_token: Seq<u8>,
    pub client_id: u64,
    pub owner: Seq<u8>,
    pub object: StableObject,
    pub ranges: Seq<LockRangeRecord>,
}

impl View for LockRecord {
    type V = LockView;

    open spec fn view(&self) -> LockView {
        LockView {
            state_token: self.state_token@,
            open_state_token: self.open_state_token@,
            client_id: self.client_id,
            owner: self.owner@,
            object: self.object,
            ranges: self.ranges@,
        }
    }
}

/// A delegation.
#[derive(Clone, Debug, PartialEq, Eq)]
pub struct DelegationRecord {
    pub state_token: [u8; 16],
    pub client_id: u64,
    pub object: StableObject,
    pub write: bool,
    pub requested_space: u64,
    pub persistent_object_id: Vec<u8>,
}

/// What a delegation stands for.
#[verifier::ext_equal]
pub struct DelegationView {
    pub state_token: Seq<u8>,
    pub client_id: u64,
    pub object: StableObject,
    pub write: bool,
    pub requested_space: u64,
    pub persistent_object_id: Seq<u8>,
}

impl View for DelegationRecord {
    type V = DelegationView;

    open spec fn view(&self) -> DelegationView {
        DelegationView {
            state_token: self.state_token@,
            client_id: self.client_id,
            object: self.object,
            write: self.write,
            requested_space: self.requested_space,
            persistent_object_id: self.persistent_object_id@,
        }
    }
}

/// A revoked state.
#[derive(Clone, Copy, Debug, PartialEq, Eq)]
pub struct RevocationRecord {
    pub state_token: [u8; 16],
    pub client_id: u64,
    pub reason: RevocationReason,
    pub revoked_at_unix_seconds: i64,
}

/// What a revoked state stands for.
#[verifier::ext_equal]
pub struct RevocationView {
    pub state_token: Seq<u8>,
    pub client_id: u64,
    pub reason: RevocationReason,
    pub revoked_at_unix_seconds: i64,
}

impl View for RevocationRecord {
    type V = RevocationView;

    open spec fn view(&self) -> RevocationView {
        RevocationView {
            state_token: self.state_token@,
            client_id: self.client_id,
            reason: self.reason,
            revoked_at_unix_seconds: self.revoked_at_unix_seconds,
        }
    }
}

/// The authenticated source that an exact replay renews.
#[derive(Clone, Copy, Debug, PartialEq, Eq, Structural)]
pub enum ReplayRenewalSource {
    /// No source besides the client identity in the request.
    Unset,
    StateId { client_id: u64 },
}

/// An owner's last reply.
#[derive(Clone, Debug, PartialEq, Eq)]
pub struct ReplayRecord {
    pub client_id: u64,
    pub owner_kind: ReplayOwnerKind,
    pub owner: Vec<u8>,
    pub sequence_id: u32,
    pub request_digest: [u8; 32],
    pub reply: Vec<u8>,
    pub current_object: Option<StableObject>,
    /// The authenticated source that an exact replay renews after a restart or migration.
    pub renewal_source: ReplayRenewalSource,
}

/// What an owner's last reply stands for.
#[verifier::ext_equal]
pub struct ReplayView {
    pub client_id: u64,
    pub owner_kind: ReplayOwnerKind,
    pub owner: Seq<u8>,
    pub sequence_id: u32,
    pub request_digest: Seq<u8>,
    pub reply: Seq<u8>,
    pub current_object: Option<StableObject>,
    pub renewal_source: ReplayRenewalSource,
}

impl View for ReplayRecord {
    type V = ReplayView;

    open spec fn view(&self) -> ReplayView {
        ReplayView {
            client_id: self.client_id,
            owner_kind: self.owner_kind,
            owner: self.owner@,
            sequence_id: self.sequence_id,
            request_digest: self.request_digest@,
            reply: self.reply@,
            current_object: self.current_object,
            renewal_source: self.renewal_source,
        }
    }
}

/// Protocol state of one export on its way between servers.
#[derive(Clone, PartialEq, Eq)]
pub struct MigrationCapsuleRecord {
    pub transfer_id: [u8; 16],
    pub export_id: ExportId,
    pub fsid_major: u64,
    pub fsid_minor: u64,
    pub source_generation: u64,
    pub coordinator_generation: u64,
    pub coordinator_token_digest: [u8; 32],
    pub bundle_digest: [u8; 32],
    pub server_identity: ServerIdentityRecord,
    pub boot: BootRecord,
    pub handle_key: HandleKeyRecord,
    pub phase: MigrationPhase,
    pub records: Vec<StableRecord>,
}

/// What a migration capsule stands for.
#[verifier::ext_equal]
pub struct CapsuleView {
    pub transfer_id: Seq<u8>,
    pub export_id: ExportId,
    pub fsid_major: u64,
    pub fsid_minor: u64,
    pub source_generation: u64,
    pub coordinator_generation: u64,
    pub coordinator_token_digest: Seq<u8>,
    pub bundle_digest: Seq<u8>,
    pub server_identity: Seq<u8>,
    pub boot: BootView,
    pub handle_key: HandleKeyView,
    pub phase: MigrationPhase,
    pub records: Seq<StableRecordView>,
}

impl View for MigrationCapsuleRecord {
    type V = CapsuleView;

    open spec fn view(&self) -> CapsuleView {
        CapsuleView {
            transfer_id: self.transfer_id@,
            export_id: self.export_id,
            fsid_major: self.fsid_major,
            fsid_minor: self.fsid_minor,
            source_generation: self.source_generation,
            coordinator_generation: self.coordinator_generation,
            coordinator_token_digest: self.coordinator_token_digest@,
            bundle_digest: self.bundle_digest@,
            server_identity: self.server_identity@,
            boot: self.boot@,
            handle_key: self.handle_key@,
            phase: self.phase,
            records: record_views(self.records@),
        }
    }
}

impl MigrationCapsuleRecord {
    /// A capsule of its own with the same contents.
    pub fn copy(&self) -> (copy: Self)
        ensures
            copy@ == self@,
    {
        MigrationCapsuleRecord {
            transfer_id: self.transfer_id,
            export_id: self.export_id,
            fsid_major: self.fsid_major,
            fsid_minor: self.fsid_minor,
            source_generation: self.source_generation,
            coordinator_generation: self.coordinator_generation,
            coordinator_token_digest: self.coordinator_token_digest,
            bundle_digest: self.bundle_digest,
            server_identity: self.server_identity,
            boot: self.boot,
            handle_key: self.handle_key,
            phase: self.phase,
            records: copy_records(&self.records),
        }
    }
}

/// A typed record.
#[derive(Clone, PartialEq, Eq)]
pub enum JournalRecord {
    Schema(SchemaRecord),
    ServerIdentity(ServerIdentityRecord),
    Boot(BootRecord),
    HandleKey(HandleKeyRecord),
    Client(ClientRecord),
    Open(OpenRecord),
    Lock(LockRecord),
    Delegation(DelegationRecord),
    Revocation(RevocationRecord),
    Replay(ReplayRecord),
    Migration(MigrationCapsuleRecord),
}

/// What a typed record stands for.
#[verifier::ext_equal]
pub enum RecordView {
    Schema(SchemaRecord),
    ServerIdentity(Seq<u8>),
    Boot(BootView),
    HandleKey(HandleKeyView),
    Client(ClientView),
    Open(OpenView),
    Lock(LockView),
    Delegation(DelegationView),
    Revocation(RevocationView),
    Replay(ReplayView),
    Migration(CapsuleView),
}

impl View for JournalRecord {
    type V = RecordView;

    open spec fn view(&self) -> RecordView {
        match *self {
            JournalRecord::Schema(r) => RecordView::Schema(r),
            JournalRecord::ServerIdentity(r) => RecordView::ServerIdentity(r@),
            JournalRecord::Boot(r) => RecordView::Boot(r@),
            JournalRecord::HandleKey(r) => RecordView::HandleKey(r@),
            JournalRecord::Client(r) => RecordView::Client(r@),
            JournalRecord::Open(r) => RecordView::Open(r@),
            JournalRecord::Lock(r) => RecordView::Lock(r@),
            JournalRecord::Delegation(r) => RecordView::Delegation(r@),
            JournalRecord::Revocation(r) => RecordView::Revocation(r@),
            JournalRecord::Replay(r) => RecordView::Replay(r@),
            JournalRecord::Migration(r) => RecordView::Migration(r@),
        }
    }
}

/// The tag of a record.
pub open spec fn record_tag(record: RecordView) -> u8 {
    match record {
        RecordView::Schema(_) => TAG_SCHEMA,
        RecordView::ServerIdentity(_) => TAG_SERVER_IDENTITY,
        RecordView::Boot(_) => TAG_BOOT,
        RecordView::HandleKey(_) => TAG_HANDLE_KEY,
        RecordView::Client(_) => TAG_CLIENT,
        RecordView::Open(_) => TAG_OPEN,
        RecordView::Lock(_) => TAG_LOCK,
        RecordView::Delegation(_) => TAG_DELEGATION,
        RecordView::Revocation(_) => TAG_REVOCATION,
        RecordView::Replay(_) => TAG_REPLAY,
        RecordView::Migration(_) => TAG_MIGRATION,
    }
}

/// Identities, verifiers, tokens and digests have their fixed lengths.
pub open spec fn record_shaped(record: RecordView) -> bool {
    match record {
        RecordView::Schema(_) => true,
        RecordView::ServerIdentity(identity) => identity.len() == 16,
        RecordView::Boot(r) => r.verifier.len() == 8,
        RecordView::HandleKey(r) => r.instance_id.len() == 8 && r.secret.len() == 32,
        RecordView::Client(r) => r.verifier.len() == 8,
        RecordView::Open(r) => r.state_token.len() == 16,
        RecordView::Lock(r) => r.state_token.len() == 16 && r.open_state_token.len() == 16,
        RecordView::Delegation(r) => r.state_token.len() == 16,
        RecordView::Revocation(r) => r.state_token.len() == 16,
        RecordView::Replay(r) => r.request_digest.len() == 32,
        RecordView::Migration(r) => capsule_shaped(r),
    }
}

/// The fixed-length fields of a capsule have their lengths.
pub open spec fn capsule_shaped(r: CapsuleView) -> bool {
    &&& r.transfer_id.len() == 16
    &&& r.coordinator_token_digest.len() == 32
    &&& r.bundle_digest.len() == 32
    &&& r.server_identity.len() == 16
    &&& r.boot.verifier.len() == 8
    &&& r.handle_key.instance_id.len() == 8
    &&& r.handle_key.secret.len() == 32
}

/// A vector of its own with the same contributions.
pub fn copy_contributions(contributions: &Vec<OpenContributionRecord>) -> (copy: Vec<OpenContributionRecord>)
    ensures
        copy@ == contributions@,
{
    let mut copy: Vec<OpenContributionRecord> = Vec::new();
    let mut i: usize = 0;
    while i < contributions.len()
        invariant
            i <= contributions.len(),
            copy@ == contributions@.take(i as int),
        decreases contributions.len() - i,
    {
        copy.push(contributions[i]);
        i += 1;
        assert(copy@ =~= contributions@.take(i as int));
    }
    assert(copy@ =~= contributions@);
    copy
}

/// A vector of its own with the same ranges.
pub fn copy_ranges(ranges: &Vec<LockRangeRecord>) -> (copy: Vec<LockRangeRecord>)
    ensures
        copy@ == ranges@,
{
    let mut copy: Vec<LockRangeRecord> = Vec::new();
    let mut i: usize = 0;
    while i < ranges.len()
        invariant
            i <= ranges.len(),
            copy@ == ranges@.take(i as int),
        decreases ranges.len() - i,
    {
        copy.push(ranges[i]);
        i += 1;
        assert(copy@ =~= ranges@.take(i as int));
    }
    assert(copy@ =~= ranges@);
    copy
}

impl JournalRecord {
    /// The tag of this record.
    pub fn tag(&self) -> (tag: u8)
        ensures
            tag == record_tag(self@),
    {
        match self {
            JournalRecord::Schema(_) => TAG_SCHEMA,
            JournalRecord::ServerIdentity(_) => TAG_SERVER_IDENTITY,
            JournalRecord::Boot(_) => TAG_BOOT,
            JournalRecord::HandleKey(_) => TAG_HANDLE_KEY,
            JournalRecord::Client(_) => TAG_CLIENT,
            JournalRecord::Open(_) => TAG_OPEN,
            JournalRecord::Lock(_) => TAG_LOCK,
            JournalRecord::Delegation(_) => TAG_DELEGATION,
            JournalRecord::Revocation(_) => TAG_REVOCATION,
            JournalRecord::Replay(_) => TAG_REPLAY,
            JournalRecord::Migration(_) => TAG_MIGRATION,
        }
    }

    /// A record of its own with the same contents.
    pub fn copy(&self) -> (copy: Self)
        ensures
            copy@ == self@,
    {
        match self {
            JournalRecord::Schema(r) => JournalRecord::Schema(*r),
            JournalRecord::ServerIdentity(r) => JournalRecord::ServerIdentity(*r),
            JournalRecord::Boot(r) => JournalRecord::Boot(*r),
            JournalRecord::HandleKey(r) => JournalRecord::HandleKey(*r),
            JournalRecord::Client(r) => JournalRecord::Client(
                ClientRecord {
                    client_id: r.client_id,
                    owner: copy_bytes(r.owner.as_slice()),
                    verifier: r.verifier,
                    canonical_principal: copy_bytes(r.canonical_principal.as_slice()),
                    confirmed: r.confirmed,
                },
            ),
            JournalRecord::Open(r) => JournalRecord::Open(
                OpenRecord {
                    state_token: r.state_token,
                    client_id: r.client_id,
                    owner: copy_bytes(r.owner.as_slice()),
                    object: r.object,
                    share_access: r.share_access,
                    share_deny: r.share_deny,
                    contributions: copy_contributions(&r.contributions),
                },
            ),
            JournalRecord::Lock(r) => JournalRecord::Lock(
                LockRecord {
                    state_token: r.state_token,
                    open_state_token: r.open_state_token,
                    client_id: r.client_id,
                    owner: copy_bytes(r.owner.as_slice()),
                    object: r.object,
                    ranges: copy_ranges(&r.ranges),
                },
            ),
            JournalRecord::Delegation(r) => JournalRecord::Delegation(
                DelegationRecord {
                    state_token: r.state_token,
                    client_id: r.client_id,
                    object: r.object,
                    write: r.write,
                    requested_space: r.requested_space,
                    persistent_object_id: copy_bytes(r.persistent_object_id.as_slice()),
                },
            ),
            JournalRecord::Revocation(r) => JournalRecord::Revocation(*r),
            JournalRecord::Replay(r) => JournalRecord::Replay(
                ReplayRecord {
                    client_id: r.client_id,
                    owner_kind: r.owner_kind,
                    owner: copy_bytes(r.owner.as_slice()),
                    sequence_id: r.sequence_id,
                    request_digest: r.request_digest,
                    reply: copy_bytes(r.reply.as_slice()),
                    current_object: r.current_object,
                    renewal_source: r.renewal_source,
                },
            ),
            JournalRecord::Migration(r) => JournalRecord::Migration(r.copy()),
        }
    }
}

} // verus!
