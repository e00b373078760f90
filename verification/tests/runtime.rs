use std::sync::Arc;

use nfsembed::clients::{CallbackClient, ClientAddress};
use nfsembed::codec::ExportId;
use nfsembed::commit::{CommitVerdict, StableMutation};
use nfsembed::error::StableStateError;
use nfsembed::identity::{canonical_client_identity, GssService, GssVersion, Principal};
use nfsembed::journal::{
    CommitPlan, JournalMutation, PersistBatch, PreviousShutdown, RecoveredStableState, StableJournal,
};
use nfsembed::limits::StableJournalLimits;
use nfsembed::locks::LockRange;
use nfsembed::protocol::{
    owner_file_key, state_other, state_token, ChangeInfo, DelegationKind, LockAccess, LockDenied, LockResult, LockStateOwner,
    LockType, Nfs4Limits, NfsStatus, ObjectKey, OpenDelegation, OwnerKey, OwnerRequestDigest, ReplayEffect, ResOp,
    RuntimeFile, StateId,
};
use nfsembed::record::{
    stable_kind_code, BootRecord, ClientRecord, JournalKey, JournalRecord, LockRangeRecord, LockRecord,
    OpenContributionRecord, OpenRecord, ReplayOwnerKind, ReplayRecord, ReplayRenewalSource, StableKey, StableRecord,
};
use nfsembed::recovery::RuntimeConfigError;
use nfsembed::registry::{PendingPinRelease, ReleasedOpen};
use nfsembed::runtime::complete::OpenCompletion;
use nfsembed::runtime::confirm::ConfirmStep;
use nfsembed::runtime::import::RuntimeConfig;
use nfsembed::runtime::io::{IoAccess, IoPermit, IoValidationError};
use nfsembed::runtime::lock::{
    ExistingLockOwner, LockArgs, LockStep, LockTestArgs, LockUnlockArgs, Locker, OpenToLockOwner,
};
use nfsembed::runtime::open::{
    OpenDecision, OpenRequest, OpenReservation, OpenTargetReservation, OPEN4_RESULT_CONFIRM,
};
use nfsembed::runtime::openstate::{DowngradeStep, OpenStateDecision, OpenStateReservation, OwnerErrorStep};
use nfsembed::runtime::preflight::LockPreflight;
use nfsembed::runtime::register::{RegisterStep, SetClientIdArgs, SetClientIdResult};
use nfsembed::runtime::release::ReleaseLockOwnerDecision;
use nfsembed::runtime::unlock::{LockTestDecision, LockTestResult, UnlockStep};
use nfsembed::runtime::Nfs4Runtime;
use nfsembed::snapshot::StableSnapshot;
use nfsembed::stateid::StatePayload;

const READ: u32 = 1;
const WRITE: u32 = 2;
const BOTH: u32 = 3;
const NONE: u32 = 0;
const CONFIRMATION: [u8; 8] = [0xfc, 0x82, 0xe2, 0x36, 0xf8, 0x76, 0xaa, 0x1a];
const PIN: [u8; 16] =
    [0x6b, 0xa6, 0x29, 0xa5, 0x54, 0x42, 0x0d, 0xea, 0x1e, 0x90, 0xb5, 0xd2, 0x2b, 0x91, 0xd4, 0x58];
const ANONYMOUS_STATE_ID: StateId = StateId { sequence_id: 0, other: [0; 12] };
const READ_BYPASS_STATE_ID: StateId = StateId { sequence_id: u32::MAX, other: [0xff; 12] };
const KERBEROS_MECHANISM: &[u8] = &[0x2a, 0x86, 0x48, 0x86, 0xf7, 0x12, 0x01, 0x02, 0x02];

fn config() -> RuntimeConfig {
    RuntimeConfig {
        lease_duration: 10,
        grace_duration: 10,
        limits: Nfs4Limits {
            max_clients: 8,
            max_open_owners_per_client: 8,
            max_open_contributions_per_state: 8,
            max_lock_owners_per_client: 8,
            max_lock_ranges_per_state: 8,
            max_state_objects: 32,
            max_client_owner_size: 64,
        },
        boot_tag: 0x1234_5678,
        write_verifier: [0x5a; 8],
    }
}

/// A store that keeps what it is given, and fails when told to.
#[derive(Default)]
struct Disk {
    generation: u64,
    records: Vec<StableRecord>,
    fail_next_commit: bool,
}

const FENCE: &[u8] = b"fence";

fn same_key(left: &StableKey, right: &StableKey) -> bool {
    stable_kind_code(left.kind) == stable_kind_code(right.kind) && left.key == right.key
}

impl Disk {
    fn snapshot(&self) -> StableSnapshot {
        StableSnapshot { fence_token: FENCE.to_vec(), generation: self.generation, records: self.records.clone() }
    }

    fn run(&mut self, plan: &CommitPlan) -> Result<u64, StableStateError> {
        if std::mem::take(&mut self.fail_next_commit) {
            return Err(StableStateError::Other("injected commit failure".into()));
        }
        assert_eq!(plan.expected_generation, self.generation);
        for mutation in &plan.mutations {
            match mutation {
                StableMutation::Put { key, payload } => {
                    self.records.retain(|record| !same_key(&record.key, key));
                    self.records.push(StableRecord { key: key.clone(), payload: payload.clone() });
                },
                StableMutation::Delete { key } => self.records.retain(|record| !same_key(&record.key, key)),
            }
        }
        self.generation += 1;
        Ok(self.generation)
    }
}

/// A journal over a store.
struct Durable {
    disk: Disk,
    journal: StableJournal,
}

impl Durable {
    fn start(mut disk: Disk, started_at: i64) -> Durable {
        let limits = StableJournalLimits::default();
        let startup = StableJournal::initialize(FENCE, disk.snapshot(), started_at, limits).ok().unwrap();
        let generation = disk.run(startup.plan()).unwrap();
        let startup = startup.finish_boot(generation).ok().unwrap();
        assert!(startup.next_cleanup().ok().unwrap().is_none());
        Durable { disk, journal: startup.into_journal() }
    }

    fn settings(&self, config: RuntimeConfig) -> RuntimeConfig {
        let boot = self.journal.boot();
        RuntimeConfig { boot_tag: boot.boot_tag, write_verifier: boot.verifier, ..config }
    }

    fn carry_out(&mut self, plan: CommitPlan) -> bool {
        let result = self.disk.run(&plan);
        let settled = match self.journal.settle(&plan, FENCE, result) {
            CommitVerdict::Settled(settled) => settled,
            CommitVerdict::Recover(error) => {
                self.journal.settle_recovered(&plan, error, Ok(self.disk.snapshot()))
            },
        };
        match settled {
            Ok(generation) => {
                self.journal.finish(plan, generation);
                true
            },
            Err(_) => false,
        }
    }

    fn persist(&mut self, batch: &PersistBatch) -> bool {
        let mutations = (0..batch.len()).map(|at| batch.mutation(at).clone()).collect();
        match self.journal.persist_before_ack(FENCE, PersistBatch::new(mutations)) {
            Ok(plan) => self.carry_out(plan),
            Err(_) => false,
        }
    }

    fn mark_clean_shutdown(&mut self) {
        let plan = self.journal.mark_clean_shutdown(FENCE).ok().unwrap();
        assert!(self.carry_out(plan));
    }
}

/// The operations that the replies among the records hold, as the replies of these tests spell them.
fn operations(records: &[(JournalKey, JournalRecord)]) -> Vec<Option<Vec<u8>>> {
    records
        .iter()
        .map(|(_, record)| match record {
            JournalRecord::Replay(replay) => Some(replay.reply.clone()),
            _ => None,
        })
        .collect()
}

/// A server with its clock, its records and, where it has one, its journal.
struct Server {
    runtime: Nfs4Runtime,
    now: u64,
    records: Vec<(JournalKey, JournalRecord)>,
    fail_next_commit: bool,
    durable: Option<Durable>,
}

impl Server {
    fn new(config: RuntimeConfig) -> Server {
        Server::recovering(config, None)
    }

    fn recovering(config: RuntimeConfig, recovered: Option<&RecoveredStableState>) -> Server {
        let records = recovered.map(|found| found.records.clone()).unwrap_or_default();
        let replies = operations(&records);
        let runtime = Nfs4Runtime::new(config, recovered, &replies, 0).ok().unwrap();
        Server { runtime, now: 0, records, fail_next_commit: false, durable: None }
    }

    fn journaled(config: RuntimeConfig, durable: Durable) -> Server {
        let mut server = Server::recovering(durable.settings(config), Some(durable.journal.recovery()));
        server.durable = Some(durable);
        server
    }

    fn journal(&mut self) -> &mut Durable {
        self.durable.as_mut().unwrap()
    }

    fn stopped(self) -> Disk {
        self.durable.unwrap().disk
    }

    fn persist(&mut self, batch: &PersistBatch) -> bool {
        if batch.is_empty() {
            return true;
        }
        let fail = std::mem::take(&mut self.fail_next_commit);
        let persisted = match &mut self.durable {
            Some(durable) => {
                durable.disk.fail_next_commit = fail;
                durable.persist(batch)
            },
            None => !fail,
        };
        if !persisted {
            return false;
        }
        for at in 0..batch.len() {
            match batch.mutation(at) {
                JournalMutation::Put { key, record } => {
                    self.records.retain(|(existing, _)| existing != key);
                    self.records.push((key.clone(), record.clone()));
                },
                JournalMutation::Delete { key } => self.records.retain(|(existing, _)| existing != key),
            }
        }
        true
    }

    fn set_client_id(&mut self, args: &SetClientIdArgs, principal: &Arc<Principal>) -> SetClientIdResult {
        match self.runtime.set_client_id(args, principal, self.now) {
            RegisterStep::Done(result) => result,
            RegisterStep::Register(plan) => {
                let batch = self.runtime.register_batch(&plan);
                let persisted = self.persist(&batch);
                if let Some(client) = plan.releasing {
                    assert!(self.runtime.can_revoke(client));
                }
                self.runtime.finish_register(plan, persisted)
            },
        }
    }

    fn confirm_client(&mut self, client_id: u64, confirmation: [u8; 8], principal: &Principal) -> NfsStatus {
        match self.runtime.confirm_client(client_id, confirmation, principal) {
            ConfirmStep::Done(status) => status,
            ConfirmStep::Confirm(plan) => {
                let batch = self.runtime.confirm_batch(&plan);
                let persisted = self.persist(&batch);
                if let Some(client) = plan.replaced {
                    assert!(self.runtime.can_revoke(client));
                }
                self.runtime.finish_confirm(plan, persisted)
            },
        }
    }

    fn registered(&mut self, args: &SetClientIdArgs, principal: &Arc<Principal>) -> (u64, [u8; 8]) {
        match self.set_client_id(args, principal) {
            SetClientIdResult::Registered { client_id, confirmation } => (client_id, confirmation),
            result => panic!("registration failed: {result:?}"),
        }
    }

    fn confirmed_client(&mut self, owner: &[u8], verifier: [u8; 8]) -> u64 {
        let args = set_client(owner, verifier, b"127.0.0.1.8.1");
        let (client_id, confirmation) = self.registered(&args, &Arc::new(Principal::Anonymous));
        assert_eq!(self.confirm_client(client_id, confirmation, &Principal::Anonymous), NfsStatus::Success);
        client_id
    }

    fn begin_open(
        &mut self,
        owner: &OwnerKey,
        sequence_id: u32,
        share_access: u32,
        share_deny: u32,
        reclaim: bool,
        digest: u8,
    ) -> OpenDecision {
        let request = OpenRequest {
            owner: owner.clone(),
            sequence_id,
            share_access,
            share_deny,
            reclaim,
            authenticate_clientid: true,
            digest: OwnerRequestDigest([digest; 32]),
        };
        self.runtime.begin_open(&request, &Principal::Anonymous, self.now)
    }

    fn opening(
        &mut self,
        owner: &OwnerKey,
        sequence_id: u32,
        share_access: u32,
        reclaim: bool,
        digest: u8,
    ) -> OpenReservation {
        match self.begin_open(owner, sequence_id, share_access, NONE, reclaim, digest) {
            OpenDecision::Execute(reservation) => reservation,
            _ => panic!("the open was not begun"),
        }
    }

    fn target(&mut self, reservation: OpenReservation, file: RuntimeFile) -> OpenTargetReservation {
        match self.runtime.reserve_open_target(reservation, file) {
            Ok(target) => target,
            Err((_, status)) => panic!("the target was refused: {status:?}"),
        }
    }

    fn complete_open(&mut self, target: OpenTargetReservation) -> Result<OpenCompletion, NfsStatus> {
        let change = ChangeInfo { atomic: true, before: 1, after: 2 };
        assert!(self.runtime.can_complete_open(&target, &OpenDelegation::Absent));
        let plan = self.runtime.complete_open(target, change, Arc::new(Vec::new()), OpenDelegation::Absent)?;
        let (plan, batch) = self.runtime.ready_open(plan, &b"reply".to_vec())?;
        let persisted = self.persist(&batch);
        assert!(self.runtime.can_finish_open(&plan));
        self.runtime.finish_open(plan, persisted)
    }

    fn open(
        &mut self,
        owner: &OwnerKey,
        file: RuntimeFile,
        sequence_id: u32,
        share_access: u32,
        digest: u8,
    ) -> StateId {
        let reservation = self.opening(owner, sequence_id, share_access, false, digest);
        let target = self.target(reservation, file);
        opened(&self.complete_open(target).ok().unwrap().result)
    }

    fn begin_state(
        &mut self,
        state_id: StateId,
        file: RuntimeFile,
        sequence_id: u32,
        digest: u8,
        require_unconfirmed: bool,
    ) -> OpenStateDecision {
        self.runtime.begin_open_state_operation(
            state_id,
            file,
            sequence_id,
            OwnerRequestDigest([digest; 32]),
            &Principal::Anonymous,
            require_unconfirmed,
            self.now,
        )
    }

    fn changing(
        &mut self,
        state_id: StateId,
        file: RuntimeFile,
        sequence_id: u32,
        digest: u8,
        require_unconfirmed: bool,
    ) -> OpenStateReservation {
        match self.begin_state(state_id, file, sequence_id, digest, require_unconfirmed) {
            OpenStateDecision::Execute(reservation) => reservation,
            OpenStateDecision::Error { status, .. } => panic!("the request was refused: {status:?}"),
            OpenStateDecision::Replay { .. } => panic!("the request was answered before"),
        }
    }

    fn confirm_open(&mut self, state_id: StateId, file: RuntimeFile, sequence_id: u32, digest: u8) -> StateId {
        let reservation = self.changing(state_id, file, sequence_id, digest, true);
        let plan = self.runtime.confirm_open(reservation).ok().unwrap();
        let batch = plan.batch(&b"reply".to_vec());
        let persisted = self.persist(&batch);
        match self.runtime.finish_open_change(plan, persisted).ok().unwrap().as_ref() {
            ResOp::OpenConfirm(Ok(state_id)) => *state_id,
            result => panic!("the open was not confirmed: {result:?}"),
        }
    }

    fn open_and_confirm(&mut self, owner: &OwnerKey, file: RuntimeFile, share_access: u32) -> StateId {
        let state_id = self.open(owner, file, 1, share_access, 0x11);
        self.confirm_open(state_id, file, 2, 0x12)
    }

    fn refuse(&mut self, step: OwnerErrorStep) -> Arc<ResOp> {
        match step {
            OwnerErrorStep::Done(result) => result,
            OwnerErrorStep::Record(plan) => {
                let batch = plan.batch(&b"reply".to_vec());
                let recorded = self.persist(&batch);
                self.runtime.finish_owner_error(plan, recorded)
            },
        }
    }

    fn downgrade(&mut self, reservation: OpenStateReservation, share_access: u32) -> Result<Arc<ResOp>, NfsStatus> {
        match self.runtime.downgrade_open(reservation, share_access, NONE) {
            DowngradeStep::Failed(status) => Err(status),
            DowngradeStep::Refused(step) => Ok(self.refuse(step)),
            DowngradeStep::Change(plan) => {
                let batch = plan.batch(&b"reply".to_vec());
                let persisted = self.persist(&batch);
                self.runtime.finish_open_change(plan, persisted)
            },
        }
    }

    fn close(&mut self, reservation: OpenStateReservation) -> Result<Arc<ResOp>, NfsStatus> {
        let prepared = match self.runtime.prepare_close(reservation) {
            Ok(prepared) => prepared,
            Err(step) => return Ok(self.refuse(step)),
        };
        let plan = self.runtime.close_open(prepared)?;
        let batch = plan.batch(&b"reply".to_vec());
        let persisted = self.persist(&batch);
        assert!(self.runtime.can_finish_close(&plan));
        self.runtime.finish_close(plan, persisted)
    }

    fn lock(&mut self, arguments: &LockArgs, file: RuntimeFile, digest: u8) -> LockResult {
        let digest = OwnerRequestDigest([digest; 32]);
        match self.runtime.lock(arguments, file, digest, &Principal::Anonymous, None, self.now) {
            LockStep::Done(result) => result,
            LockStep::Record(plan) => {
                let batch = plan.batch(&b"reply".to_vec());
                let recorded = self.persist(&batch);
                self.runtime.finish_lock_error(plan, recorded)
            },
            LockStep::Grant(plan) => {
                let batch = plan.batch(&b"reply".to_vec());
                let persisted = self.persist(&batch);
                if let Some(open) = &plan.open_reservation {
                    assert!(self.runtime.state.is_awaited(open) && self.runtime.state.is_awaited(&plan.reservation));
                }
                self.runtime.finish_lock(plan, persisted)
            },
        }
    }

    fn granted(&mut self, arguments: &LockArgs, file: RuntimeFile, digest: u8) -> StateId {
        match self.lock(arguments, file, digest) {
            LockResult::Granted(state_id) => state_id,
            result => panic!("the lock was not granted: {result:?}"),
        }
    }

    fn unlock(&mut self, arguments: LockUnlockArgs, file: RuntimeFile, digest: u8) -> Arc<ResOp> {
        let digest = OwnerRequestDigest([digest; 32]);
        match self.runtime.unlock(arguments, file, digest, &Principal::Anonymous, self.now) {
            UnlockStep::Done(result) => result,
            UnlockStep::Record(plan) => {
                let batch = plan.batch(&b"reply".to_vec());
                let recorded = self.persist(&batch);
                self.runtime.finish_owner_error(plan, recorded)
            },
            UnlockStep::Release(plan) => {
                let batch = plan.batch(&b"reply".to_vec());
                let persisted = self.persist(&batch);
                self.runtime.finish_unlock(plan, persisted)
            },
        }
    }

    fn expire_due(&mut self) -> Vec<PendingPinRelease> {
        let mut releases = Vec::new();
        for client in self.runtime.begin_expiry(self.now) {
            if let Some(batch) = self.runtime.expiry_batch(client) {
                if self.persist(&batch) {
                    assert!(self.runtime.can_revoke(client));
                    releases.extend(self.runtime.finish_expiry(client));
                }
            }
        }
        releases
    }

    fn finish_grace_if_due(&mut self) -> Result<bool, NfsStatus> {
        match self.runtime.grace_batch(self.now) {
            None => Ok(false),
            Some(batch) => {
                if !self.persist(&batch) {
                    return Err(NfsStatus::Resource);
                }
                self.runtime.finish_grace();
                Ok(true)
            },
        }
    }

    fn io(
        &mut self,
        state_id: StateId,
        file: RuntimeFile,
        access: IoAccess,
        offset: u64,
        length: u64,
    ) -> Result<IoPermit, IoValidationError> {
        self.runtime.validate_io(state_id, file, access, offset, length, &Principal::Anonymous, self.now)
    }

    fn io_status(
        &mut self,
        state_id: StateId,
        file: RuntimeFile,
        access: IoAccess,
        offset: u64,
        length: u64,
    ) -> NfsStatus {
        match self.io(state_id, file, access, offset, length) {
            Ok(_) => NfsStatus::Success,
            Err(error) => error.status,
        }
    }

    fn no_target(&mut self, reservation: OpenReservation, file: RuntimeFile) -> (OpenReservation, NfsStatus) {
        match self.runtime.reserve_open_target(reservation, file) {
            Ok(_) => panic!("the target was not refused"),
            Err(refused) => refused,
        }
    }

    fn open_pin(&self, state_id: StateId) -> [u8; 16] {
        match self.runtime.state.stateids.identify(state_id).ok().unwrap().payload {
            StatePayload::Open(open) => open.pin,
            StatePayload::Lock(_) => panic!("the state is one of locks"),
        }
    }

    fn previous_client_ids(&self, client_id: u64, principal: &Principal) -> Vec<u64> {
        self.runtime.previous_client_ids(client_id, principal).ok().unwrap().to_vec()
    }

    fn renew(&mut self, client_id: u64) -> NfsStatus {
        self.runtime.renew(client_id, &Principal::Anonymous, self.now)
    }

    fn note_moved_export(&mut self, client_id: u64, export_id: ExportId) {
        self.runtime.note_moved_export(client_id, export_id, &Principal::Anonymous, self.now).unwrap();
    }

    fn complete_probes(&mut self, client_id: u64, export_id: ExportId) {
        self.runtime.complete_moved_export_probes(client_id, &vec![export_id], &Principal::Anonymous).unwrap();
    }

    fn lock_states(&self, owner: &OwnerKey, file: RuntimeFile) -> usize {
        let states = &self.runtime.state.lock_by_state;
        states.order_known();
        (0..states.len())
            .filter(|at| states.value_at(*at).owner.owner == *owner && states.value_at(*at).file == file)
            .count()
    }

    fn release_lock_owner(&mut self, owner: &OwnerKey) -> NfsStatus {
        match self.runtime.prepare_release_lock_owner(owner, &Principal::Anonymous, self.now) {
            ReleaseLockOwnerDecision::Error { status, .. } => status,
            ReleaseLockOwnerDecision::Execute { .. } => match self.runtime.release_lock_owner_batch(owner) {
                Err(status) => status,
                Ok(batch) => {
                    let persisted = self.persist(&batch);
                    self.runtime.finish_release_lock_owner(owner, persisted)
                },
            },
        }
    }

    fn lock_test(
        &mut self,
        lock_type: LockType,
        offset: u64,
        length: u64,
        owner: &OwnerKey,
        file: RuntimeFile,
    ) -> LockTestDecision {
        let arguments = LockTestArgs { lock_type, offset, length, owner: owner.clone() };
        self.runtime.lock_test(&arguments, file, &Principal::Anonymous, self.now)
    }
}

fn unlock(
    lock_type: LockType,
    sequence_id: u32,
    lock_state_id: StateId,
    offset: u64,
    length: u64,
) -> LockUnlockArgs {
    LockUnlockArgs { lock_type, sequence_id, lock_state_id, offset, length }
}

fn renew_by_stateid(recovered: &mut RecoveredStableState, client_id: u64) {
    for (_, record) in &mut recovered.records {
        if let JournalRecord::Replay(replay) = record {
            replay.renewal_source = ReplayRenewalSource::StateId { client_id };
        }
    }
}

fn in_use(result: SetClientIdResult) -> ClientAddress {
    match result {
        SetClientIdResult::InUse(user) => user.location.clone(),
        result => panic!("the name was not in use: {result:?}"),
    }
}

fn refused(decision: OpenDecision) -> (NfsStatus, Option<u64>) {
    match decision {
        OpenDecision::Error { status, client_id } => (status, client_id),
        _ => panic!("the open was not refused"),
    }
}

fn gss_principal(name: &[u8], mechanism: &[u8], version: GssVersion, service: GssService) -> Arc<Principal> {
    Arc::new(Principal::Gss { canonical_name: name.to_vec(), mechanism: mechanism.to_vec(), version, service })
}

fn opened(result: &ResOp) -> StateId {
    match result {
        ResOp::Open(Ok(open)) => open.state_id,
        result => panic!("the file was not opened: {result:?}"),
    }
}

fn callback(address: &[u8]) -> Arc<CallbackClient> {
    Arc::new(CallbackClient {
        program: 0x4000_0000,
        location: ClientAddress { netid: b"tcp".to_vec(), address: address.to_vec() },
    })
}

fn set_client(owner: &[u8], verifier: [u8; 8], address: &[u8]) -> SetClientIdArgs {
    SetClientIdArgs { verifier, id: Arc::new(owner.to_vec()), callback: callback(address), callback_identifier: 7 }
}

fn owner(client_id: u64, name: &[u8]) -> OwnerKey {
    OwnerKey { client_id, owner: Arc::new(name.to_vec()) }
}

fn auth_sys(uid: u32, machine_name: &[u8]) -> Arc<Principal> {
    Arc::new(Principal::AuthSys {
        uid,
        gid: uid,
        supplementary_gids: Vec::new(),
        machine_name: machine_name.to_vec(),
    })
}

fn test_file(file_id: u64) -> RuntimeFile {
    RuntimeFile { export_id: ExportId(7), object: ObjectKey { file_id, generation: 1 } }
}

fn new_lock(
    lock_type: LockType,
    reclaim: bool,
    offset: u64,
    length: u64,
    open_sequence_id: u32,
    open_state_id: StateId,
    lock_sequence_id: u32,
    lock_owner: &OwnerKey,
) -> LockArgs {
    LockArgs {
        lock_type,
        reclaim,
        offset,
        length,
        locker: Locker::New(OpenToLockOwner {
            open_sequence_id,
            open_state_id,
            lock_sequence_id,
            lock_owner: lock_owner.clone(),
        }),
    }
}

fn more_lock(
    lock_type: LockType,
    offset: u64,
    length: u64,
    lock_state_id: StateId,
    lock_sequence_id: u32,
) -> LockArgs {
    LockArgs {
        lock_type,
        reclaim: false,
        offset,
        length,
        locker: Locker::Existing(ExistingLockOwner { lock_state_id, lock_sequence_id }),
    }
}

fn state_other_of(boot_tag: u32, slot: u32) -> [u8; 12] {
    let mut other = [0; 12];
    other[..4].copy_from_slice(&boot_tag.to_be_bytes());
    other[4..8].copy_from_slice(&slot.to_be_bytes());
    other[8..].copy_from_slice(&1u32.to_be_bytes());
    other
}

fn recovered_state(previous_shutdown: PreviousShutdown) -> (RecoveredStableState, u64, RuntimeFile) {
    let previous_boot_tag: u32 = 0x1020_3040;
    let previous_client_id = (u64::from(previous_boot_tag) << 32) | 7;
    let file = test_file(700);
    let open_token = state_token(StateId { sequence_id: 1, other: state_other_of(previous_boot_tag, 3) });
    let lock_token = state_token(StateId { sequence_id: 1, other: state_other_of(previous_boot_tag, 4) });
    let object = file.stable();
    let records = vec![
        (
            JournalKey::Client { client_id: previous_client_id },
            JournalRecord::Client(ClientRecord {
                client_id: previous_client_id,
                owner: b"recovered-client".to_vec(),
                verifier: [0x44; 8],
                canonical_principal: canonical_client_identity(&Principal::Anonymous),
                confirmed: true,
            }),
        ),
        (
            JournalKey::Open { state_token: open_token },
            JournalRecord::Open(OpenRecord {
                state_token: open_token,
                client_id: previous_client_id,
                owner: b"recovered-open-owner".to_vec(),
                object,
                share_access: READ,
                share_deny: NONE,
                contributions: vec![OpenContributionRecord { share_access: READ, share_deny: NONE, count: 1 }],
            }),
        ),
        (
            JournalKey::Lock { state_token: lock_token },
            JournalRecord::Lock(LockRecord {
                state_token: lock_token,
                open_state_token: open_token,
                client_id: previous_client_id,
                owner: b"recovered-lock-owner".to_vec(),
                object,
                ranges: vec![LockRangeRecord { offset: 10, length: 20, write: false }],
            }),
        ),
        (
            JournalKey::Replay {
                client_id: previous_client_id,
                owner_kind: ReplayOwnerKind::Open,
                owner: b"recovered-open-owner".to_vec(),
            },
            JournalRecord::Replay(ReplayRecord {
                client_id: previous_client_id,
                owner_kind: ReplayOwnerKind::Open,
                owner: b"recovered-open-owner".to_vec(),
                sequence_id: 3,
                request_digest: [0x33; 32],
                reply: b"encoded-reply".to_vec(),
                current_object: Some(object),
                renewal_source: ReplayRenewalSource::Unset,
            }),
        ),
    ];
    (
        RecoveredStableState {
            previous_shutdown,
            previous_boot: Some(BootRecord {
                verifier: [0x11; 8],
                boot_tag: previous_boot_tag,
                started_at_unix_seconds: 1,
                clean_shutdown: previous_shutdown == PreviousShutdown::Clean,
            }),
            records,
        },
        previous_client_id,
        file,
    )
}

#[test]
fn setclientid_releases_a_stateless_principal_collision_without_reusing_the_incarnation() {
    let mut runtime_config = config();
    runtime_config.limits.max_clients = 1;
    let mut server = Server::new(runtime_config);
    let anonymous = Arc::new(Principal::Anonymous);
    let (first, confirmation) = server.registered(&set_client(b"client", [1; 8], b"127.0.0.1.8.1"), &anonymous);
    assert_eq!(server.confirm_client(first, confirmation, &anonymous), NfsStatus::Success);

    let (update, _) = server.registered(&set_client(b"client", [1; 8], b"127.0.0.1.9.9"), &anonymous);
    assert_eq!(update, first);

    let other_principal = auth_sys(1, b"host");
    let (replacement, confirmation) = server.registered(&set_client(b"client", [1; 8], b"attacker"), &other_principal);
    assert_ne!(replacement, first);
    assert_eq!(server.confirm_client(replacement, confirmation, &other_principal), NfsStatus::Success);
    assert_eq!(server.runtime.validate_client(first, &anonymous, server.now), NfsStatus::StaleClientId);
}

#[test]
fn setclientid_rejects_a_different_principal_while_open_state_is_active() {
    let mut server = Server::new(config());
    let client_id = server.confirmed_client(b"stateful-client", [0x20; 8]);
    server.open_and_confirm(&owner(client_id, b"stateful-open-owner"), test_file(200), READ);
    let other_principal = auth_sys(1, b"other-host");
    assert_eq!(
        in_use(server.set_client_id(&set_client(b"stateful-client", [0x20; 8], b"attacker"), &other_principal)),
        callback(b"127.0.0.1.8.1").location
    );
}

#[test]
fn confirming_new_incarnation_surfaces_every_retired_open_pin() {
    let mut server = Server::new(config());
    let old_client_id = server.confirmed_client(b"restarting-client", [0x26; 8]);
    let file = test_file(202);
    let state_id = server.open_and_confirm(&owner(old_client_id, b"restarting-open-owner"), file, READ);
    let pin = server.open_pin(state_id);

    let args = set_client(b"restarting-client", [0x27; 8], b"127.0.0.1.8.1");
    let (replacement, confirmation) = server.registered(&args, &Arc::new(Principal::Anonymous));
    assert_ne!(replacement, old_client_id);
    assert_eq!(server.confirm_client(replacement, confirmation, &Principal::Anonymous), NfsStatus::Success);
    let releases = server.runtime.pending_pin_releases();
    assert_eq!(releases.len(), 1);
    assert_eq!(releases[0].open, ReleasedOpen { client_id: old_client_id, file, pin });
    assert!(!server.runtime.is_open_pin_active(file, pin));
}

#[test]
fn setclientid_rejects_a_different_principal_while_recovered_state_is_reclaimable() {
    let (recovered, previous_client_id, _) = recovered_state(PreviousShutdown::Unclean);
    let mut server = Server::recovering(config(), Some(&recovered));
    let anonymous = Arc::new(Principal::Anonymous);
    let args = set_client(b"recovered-client", [0x44; 8], b"127.0.0.1.8.1");
    let (current, confirmation) = server.registered(&args, &anonymous);
    assert_eq!(server.confirm_client(current, confirmation, &anonymous), NfsStatus::Success);
    assert_eq!(server.previous_client_ids(current, &anonymous), vec![previous_client_id]);

    let other_principal = auth_sys(1, b"other-host");
    assert_eq!(
        in_use(server.set_client_id(&set_client(b"recovered-client", [0x44; 8], b"attacker"), &other_principal)),
        callback(b"127.0.0.1.8.1").location
    );
}

#[test]
fn setclientid_replacement_rejects_a_client_with_a_live_open_reservation() {
    let mut server = Server::new(config());
    let client_id = server.confirmed_client(b"reserved-open-client", [0x25; 8]);
    let reservation = server.opening(&owner(client_id, b"reserved-open-owner"), 1, READ, false, 0x26);
    let other_principal = auth_sys(2, b"replacement-host");
    assert_eq!(
        in_use(server.set_client_id(&set_client(b"reserved-open-client", [0x25; 8], b"attacker"), &other_principal)),
        callback(b"127.0.0.1.8.1").location
    );
    server.runtime.state.drop_reservation(reservation.owner);
}

#[test]
fn lease_expiry_defers_revocation_while_an_open_owner_is_reserved() {
    let mut server = Server::new(config());
    let client_id = server.confirmed_client(b"expiring-open-client", [0x23; 8]);
    let reservation = server.opening(&owner(client_id, b"expiring-open-owner"), 1, READ, false, 0x24);

    server.now = 10;
    assert!(server.expire_due().is_empty());
    assert!(server.runtime.clients.pending_expiry.contains(client_id));
    assert!(server.runtime.clients.client_owners.contains(client_id));
    assert!(server.runtime.state.client_has_live_owner_reservation(client_id));

    let step = server.runtime.complete_open_error(reservation, NfsStatus::Access);
    assert_eq!(*server.refuse(step), ResOp::Open(Err(NfsStatus::Access)));
    assert!(server.expire_due().is_empty());
    assert!(!server.runtime.state.client_has_live_owner_reservation(client_id));
    assert!(!server.runtime.clients.client_owners.contains(client_id));
}

#[test]
fn write_delegation_candidate_blocks_aliased_open_and_anonymous_io_until_last_guard_drops() {
    let mut server = Server::new(config());
    let first_client = server.confirmed_client(b"candidate-write-client", [0x27; 8]);
    let second_client = server.confirmed_client(b"aliased-open-client", [0x28; 8]);
    let file = test_file(203);
    let first = server.opening(&owner(first_client, b"candidate-write-owner"), 1, BOTH, false, 0x29);
    let mut first_target = server.target(first, file);
    let in_flight_read = server.io(ANONYMOUS_STATE_ID, file, IoAccess::Read, 0, 1).ok().unwrap();
    assert_eq!(
        server.runtime.reserve_delegation_eligibility(&mut first_target, first_client, DelegationKind::Write),
        Err(NfsStatus::Delay)
    );
    server.runtime.end_io(in_flight_read);
    let eligibility = server
        .runtime
        .reserve_delegation_eligibility(&mut first_target, first_client, DelegationKind::Write)
        .unwrap();

    assert_eq!(server.io_status(ANONYMOUS_STATE_ID, file, IoAccess::Read, 0, 1), NfsStatus::Delay);
    assert!(server
        .runtime
        .begin_delegation_access(file, Some(first_client), DelegationKind::Write, true)
        .is_ok());
    server.runtime.drop_open_target(first_target);

    let aliased_owner = owner(second_client, b"aliased-open-owner");
    let aliased = server.opening(&aliased_owner, 1, READ, false, 0x2a);
    let (aliased, status) = server.no_target(aliased, file);
    assert_eq!(status, NfsStatus::Delay);
    server.runtime.state.drop_reservation(aliased.owner);

    server.runtime.end_delegation_eligibility(eligibility);
    let retry = server.opening(&aliased_owner, 1, READ, false, 0x2a);
    let target = server.target(retry, file);
    server.runtime.drop_open_target(target);
}

#[test]
fn read_delegation_candidate_allows_read_but_blocks_write_from_other_clients() {
    let mut server = Server::new(config());
    let first_client = server.confirmed_client(b"candidate-read-client", [0x2b; 8]);
    let second_client = server.confirmed_client(b"concurrent-read-client", [0x2c; 8]);
    let file = test_file(204);
    let first = server.opening(&owner(first_client, b"candidate-read-owner"), 1, READ, false, 0x2d);
    let mut first_target = server.target(first, file);
    server
        .runtime
        .reserve_delegation_eligibility(&mut first_target, first_client, DelegationKind::Read)
        .unwrap();

    let read_permit = server.io(ANONYMOUS_STATE_ID, file, IoAccess::Read, 0, 1).ok().unwrap();
    server.runtime.end_io(read_permit);
    assert_eq!(server.io_status(ANONYMOUS_STATE_ID, file, IoAccess::Write, 0, 1), NfsStatus::Delay);

    let read = server.opening(&owner(second_client, b"concurrent-read-owner"), 1, READ, false, 0x2e);
    let target = server.target(read, file);
    server.runtime.drop_open_target(target);

    let write = server.opening(&owner(second_client, b"concurrent-write-owner"), 1, WRITE, false, 0x2f);
    let (write, status) = server.no_target(write, file);
    assert_eq!(status, NfsStatus::Delay);
    server.runtime.state.drop_reservation(write.owner);
    server.runtime.drop_open_target(first_target);
}

#[test]
fn recall_before_lock_access_reservation_blocks_a_competing_delegation_candidate() {
    let mut server = Server::new(config());
    let candidate_client = server.confirmed_client(b"lock-race-candidate", [0x30; 8]);
    let locking_client = server.confirmed_client(b"lock-race-writer", [0x31; 8]);
    let file = test_file(205);
    let open = server.opening(&owner(candidate_client, b"lock-race-candidate-owner"), 1, READ, false, 0x32);
    let mut target = server.target(open, file);

    let lock_access = server
        .runtime
        .begin_delegation_access(file, Some(locking_client), DelegationKind::Write, false)
        .unwrap();
    assert_eq!(
        server.runtime.reserve_delegation_eligibility(&mut target, candidate_client, DelegationKind::Read),
        Err(NfsStatus::Delay)
    );

    server.runtime.end_delegation_access(lock_access);
    let eligibility = server
        .runtime
        .reserve_delegation_eligibility(&mut target, candidate_client, DelegationKind::Read)
        .unwrap();
    server.runtime.end_delegation_eligibility(eligibility);
    server.runtime.drop_open_target(target);
}

#[test]
fn delegation_io_permit_excludes_a_conflicting_candidate_until_backend_io_finishes() {
    let mut server = Server::new(config());
    let delegated_client = server.confirmed_client(b"delegated-io-client", [0x33; 8]);
    let candidate_client = server.confirmed_client(b"delegated-io-candidate", [0x34; 8]);
    let file = test_file(206);
    let delegated_io = server.runtime.reserve_delegation_io(file, delegated_client, IoAccess::Write).ok().unwrap();
    let open = server.opening(&owner(candidate_client, b"delegated-io-candidate-owner"), 1, BOTH, false, 0x35);
    let mut target = server.target(open, file);
    assert_eq!(
        server.runtime.reserve_delegation_eligibility(&mut target, candidate_client, DelegationKind::Write),
        Err(NfsStatus::Delay)
    );

    server.runtime.end_io(delegated_io);
    let eligibility = server
        .runtime
        .reserve_delegation_eligibility(&mut target, candidate_client, DelegationKind::Write)
        .unwrap();
    let same_client = server.runtime.reserve_delegation_io(file, candidate_client, IoAccess::Write).ok().unwrap();
    assert_eq!(
        server.runtime.reserve_delegation_io(file, delegated_client, IoAccess::Write).err(),
        Some(NfsStatus::Delay)
    );

    server.runtime.end_io(same_client);
    server.runtime.end_delegation_eligibility(eligibility);
    server.runtime.drop_open_target(target);
}

#[test]
fn setclientid_accepts_a_different_principal_after_expired_state_is_revoked() {
    let mut runtime_config = config();
    runtime_config.limits.max_clients = 1;
    let mut server = Server::new(runtime_config);
    let client_id = server.confirmed_client(b"expired-client", [0x21; 8]);
    server.open_and_confirm(&owner(client_id, b"expired-open-owner"), test_file(201), READ);

    server.now = 10;
    assert_eq!(server.expire_due().len(), 1);

    let other_principal = auth_sys(1, b"replacement-host");
    let args = set_client(b"expired-client", [0x21; 8], b"replacement");
    let (replacement, confirmation) = server.registered(&args, &other_principal);
    assert_ne!(replacement, client_id);
    assert_eq!(server.confirm_client(replacement, confirmation, &other_principal), NfsStatus::Success);
}

#[test]
fn active_stateid_io_rejects_a_different_principal_with_access() {
    let mut server = Server::new(config());
    let client_id = server.confirmed_client(b"stateid-owner", [0x30; 8]);
    let file = test_file(300);
    let state_id = server.open_and_confirm(&owner(client_id, b"open-owner"), file, BOTH);
    let other_principal = auth_sys(1, b"other-host");
    assert_eq!(
        server
            .runtime
            .validate_io(state_id, file, IoAccess::Write, 0, 1, &other_principal, server.now)
            .err()
            .unwrap()
            .status,
        NfsStatus::Access
    );
    assert_eq!(server.runtime.validate_client(client_id, &other_principal, server.now), NfsStatus::StaleClientId);
}

#[test]
fn gss_client_identity_accepts_flavor_changes_but_distinguishes_name_or_mechanism() {
    let mut server = Server::new(config());
    let setclientid_principal =
        gss_principal(b"nfs/client@example.test", KERBEROS_MECHANISM, GssVersion::V1, GssService::Privacy);
    let operation_principal =
        gss_principal(b"nfs/client@example.test", KERBEROS_MECHANISM, GssVersion::V2, GssService::Integrity);
    let args = set_client(b"gss-client", [0x31; 8], b"127.0.0.1.8.1");
    let (first, confirmation) = server.registered(&args, &setclientid_principal);
    assert_eq!(server.confirm_client(first, confirmation, &operation_principal), NfsStatus::Success);
    assert_eq!(server.runtime.renew(first, &operation_principal, server.now), NfsStatus::Success);

    let args = set_client(b"gss-client", [0x31; 8], b"127.0.0.1.9.9");
    let (flavor_update, _) = server.registered(&args, &operation_principal);
    assert_eq!(flavor_update, first);

    let different_name =
        gss_principal(b"nfs/other@example.test", KERBEROS_MECHANISM, GssVersion::V2, GssService::Integrity);
    assert_eq!(server.runtime.validate_client(first, &different_name, server.now), NfsStatus::StaleClientId);
    let different_mechanism =
        gss_principal(b"nfs/client@example.test", b"different-mechanism", GssVersion::V1, GssService::Privacy);
    assert_eq!(server.runtime.validate_client(first, &different_mechanism, server.now), NfsStatus::StaleClientId);

    let (replacement, _) = server.registered(&set_client(b"gss-client", [0x31; 8], b"attacker"), &different_name);
    assert_ne!(replacement, first);
}

#[test]
fn recovered_gss_client_identity_is_flavor_neutral() {
    let recovered_principal =
        gss_principal(b"nfs/recovered@example.test", KERBEROS_MECHANISM, GssVersion::V1, GssService::Privacy);
    let current_principal =
        gss_principal(b"nfs/recovered@example.test", KERBEROS_MECHANISM, GssVersion::V2, GssService::Integrity);
    assert_eq!(canonical_client_identity(&recovered_principal), canonical_client_identity(&current_principal));

    let (mut recovered, previous_client_id, _) = recovered_state(PreviousShutdown::Unclean);
    for (_, record) in &mut recovered.records {
        if let JournalRecord::Client(client) = record {
            client.canonical_principal = canonical_client_identity(&recovered_principal);
        }
    }
    let mut server = Server::recovering(config(), Some(&recovered));
    let args = set_client(b"recovered-client", [0x44; 8], b"127.0.0.1.8.1");
    let (current, confirmation) = server.registered(&args, &current_principal);
    assert_eq!(server.confirm_client(current, confirmation, &current_principal), NfsStatus::Success);
    assert_eq!(server.previous_client_ids(current, &current_principal), vec![previous_client_id]);
}

#[test]
fn confirmed_callback_preserves_exact_setclientid_gss_flavor() {
    let mut server = Server::new(config());
    let setclientid_principal =
        gss_principal(b"nfs/callback@example.test", KERBEROS_MECHANISM, GssVersion::V1, GssService::Privacy);
    let confirm_principal =
        gss_principal(b"nfs/callback@example.test", KERBEROS_MECHANISM, GssVersion::V2, GssService::Integrity);
    let args = set_client(b"callback-gss-client", [0x41; 8], b"127.0.0.1.8.1");
    let (client_id, confirmation) = server.registered(&args, &setclientid_principal);
    assert_eq!(server.confirm_client(client_id, confirmation, &confirm_principal), NfsStatus::Success);

    let descriptor = server.runtime.confirmed_client_callback(client_id, &confirm_principal).ok().unwrap();
    assert_eq!(descriptor.principal, setclientid_principal);
}

#[test]
fn confirmation_does_not_start_lease_and_first_renew_does() {
    let mut server = Server::new(config());
    let client_id = server.confirmed_client(b"lease-client", [2; 8]);
    assert!(!server.runtime.clients.leases.is_active(client_id, server.now));

    assert_eq!(server.renew(client_id), NfsStatus::Success);
    server.now = 10;
    assert!(server.expire_due().is_empty());
    assert_eq!(server.renew(client_id), NfsStatus::Expired);
}

#[test]
fn moved_export_obligations_gate_renew_open_and_io_until_each_probe_completes() {
    let mut server = Server::new(config());
    let client_id = server.confirmed_client(b"moved-client", [0x21; 8]);
    let file = test_file(321);
    let state_id = server.open_and_confirm(&owner(client_id, b"existing-open"), file, BOTH);

    let first_export = file.export_id;
    let second_export = ExportId(8);
    server.note_moved_export(client_id, first_export);
    server.note_moved_export(client_id, second_export);

    assert_eq!(server.renew(client_id), NfsStatus::LeaseMoved);
    assert_eq!(server.io_status(state_id, file, IoAccess::Read, 0, 1), NfsStatus::LeaseMoved);
    assert_eq!(server.io_status(state_id, file, IoAccess::Write, 0, 1), NfsStatus::LeaseMoved);

    let decision = server.begin_open(&owner(client_id, b"new-open"), 1, READ, NONE, false, 0x31);
    assert_eq!(refused(decision).0, NfsStatus::LeaseMoved);

    server.complete_probes(client_id, ExportId(9));
    assert_eq!(server.renew(client_id), NfsStatus::LeaseMoved);
    server.complete_probes(client_id, first_export);
    assert_eq!(server.renew(client_id), NfsStatus::LeaseMoved);
    server.complete_probes(client_id, second_export);
    assert_eq!(server.renew(client_id), NfsStatus::Success);
    let permit = server.io(state_id, file, IoAccess::Read, 0, 1).ok().unwrap();
    assert_eq!(permit.client_id, Some(client_id));
}

#[test]
fn moved_export_notification_times_out_after_two_lease_periods_without_refreshing() {
    let mut server = Server::new(config());
    let client_id = server.confirmed_client(b"legacy-moved-client", [0x22; 8]);
    server.note_moved_export(client_id, ExportId(7));

    assert_eq!(server.renew(client_id), NfsStatus::LeaseMoved);
    server.now = 9;
    server.note_moved_export(client_id, ExportId(7));
    assert_eq!(server.renew(client_id), NfsStatus::LeaseMoved);
    server.now = 18;
    assert_eq!(server.renew(client_id), NfsStatus::LeaseMoved);
    server.now = 20;
    assert_eq!(server.renew(client_id), NfsStatus::Success);
    server.note_moved_export(client_id, ExportId(7));
    assert_eq!(server.renew(client_id), NfsStatus::Success);
}

#[test]
fn moved_export_obligations_are_removed_with_expired_and_replaced_clients() {
    let mut server = Server::new(config());
    let expired_client = server.confirmed_client(b"expiring-moved-client", [0x23; 8]);
    server.note_moved_export(expired_client, ExportId(7));
    assert_eq!(server.renew(expired_client), NfsStatus::LeaseMoved);
    server.now = 10;
    assert!(server.expire_due().is_empty());
    assert!(!server.runtime.clients.moved_leases.has_client(expired_client));

    let replaced_client = server.confirmed_client(b"replaced-moved-client", [0x24; 8]);
    server.note_moved_export(replaced_client, ExportId(8));
    let args = set_client(b"replaced-moved-client", [0x25; 8], b"127.0.0.1.8.1");
    let (replacement, confirmation) = server.registered(&args, &Arc::new(Principal::Anonymous));
    assert_ne!(replacement, replaced_client);
    assert_eq!(server.confirm_client(replacement, confirmation, &Principal::Anonymous), NfsStatus::Success);
    assert!(!server.runtime.clients.moved_leases.has_client(replaced_client));
}

#[test]
fn open_owner_replay_is_xid_independent_and_restores_current_file() {
    let mut server = Server::new(config());
    let client_id = server.confirmed_client(b"replay-client", [3; 8]);
    let owner = owner(client_id, b"owner");
    let reservation = server.opening(&owner, 9, 1, false, 0x44);
    let file = test_file(99);
    let target = server.target(reservation, file);
    let completion = server.complete_open(target).ok().unwrap();

    match server.begin_open(&owner, 9, 1, 0, false, 0x44) {
        OpenDecision::Replay { result, effect, .. } => {
            assert_eq!(result, completion.result);
            assert_eq!(effect.current_file, Some(file));
        },
        _ => panic!("the answer was not repeated"),
    }
    let decision = server.begin_open(&owner, 9, 1, 0, false, 0x45);
    assert_eq!(refused(decision).0, NfsStatus::BadSequenceId);
}

#[test]
fn consecutive_open_upgrades_advance_the_indexed_stateid() {
    let mut server = Server::new(config());
    let client_id = server.confirmed_client(b"upgrade-client", [0x31; 8]);
    let owner = owner(client_id, b"upgrade-owner");
    let file = test_file(97);
    let first = server.open_and_confirm(&owner, file, READ);
    let second = server.open(&owner, file, 3, WRITE, 0x32);
    let third = server.open(&owner, file, 4, BOTH, 0x33);

    assert_eq!(first.other, second.other);
    assert_eq!(second.other, third.other);
    assert_ne!(first.sequence_id, second.sequence_id);
    assert_ne!(second.sequence_id, third.sequence_id);
    let key = owner_file_key(&owner, file);
    assert_eq!(server.runtime.state.open_by_owner_file.get(&key).unwrap().state_id, third);
}

#[test]
fn open_target_drop_cleans_pending_state_after_owner_extraction() {
    let mut server = Server::new(config());
    let client_id = server.confirmed_client(b"target-drop-client", [0x36; 8]);
    let file = test_file(970);
    let reservation = server.opening(&owner(client_id, b"target-drop-owner"), 1, READ, false, 0x37);
    assert_eq!(server.runtime.state.reserved_states, 1);
    let target = server.target(reservation, file);
    assert_eq!(server.runtime.files.get(file).unwrap().pending_opens.len(), 1);
    assert_eq!(server.runtime.state.reserved_states, 1);

    server.runtime.drop_open_target(target);
    assert!(server.runtime.files.get(file).map_or(true, |state| state.pending_opens.is_empty()));
    assert_eq!(server.runtime.state.reserved_states, 0);
}

#[test]
fn failed_open_persistence_retires_pending_state_and_allows_retry() {
    let mut server = Server::new(config());
    let client_id = server.confirmed_client(b"persist-failure-client", [0x38; 8]);
    let owner = owner(client_id, b"persist-failure-owner");
    let file = test_file(971);
    let reservation = server.opening(&owner, 1, READ, false, 0x39);
    let target = server.target(reservation, file);

    server.fail_next_commit = true;
    assert_eq!(server.complete_open(target).err(), Some(NfsStatus::Resource));
    assert_eq!(server.runtime.state.stateids.len(), 0);
    assert_eq!(server.runtime.state.reserved_states, 0);
    assert!(!server.runtime.state.open_by_owner_file.contains(&owner_file_key(&owner, file)));
    assert!(server.runtime.files.get(file).map_or(true, |state| state.pending_opens.is_empty()));
    assert!(matches!(server.begin_open(&owner, 1, READ, NONE, false, 0x39), OpenDecision::Execute(_)));
}

#[test]
fn close_replays_after_the_stateid_is_retired() {
    let mut server = Server::new(config());
    let client_id = server.confirmed_client(b"close-replay-client", [0x34; 8]);
    let file = test_file(98);
    let state_id = server.open_and_confirm(&owner(client_id, b"close-replay-owner"), file, BOTH);
    let reservation = server.changing(state_id, file, 3, 0x35, false);
    let pin = reservation.pin;
    let result = server.close(reservation).unwrap();
    let releases = server.runtime.pending_pin_releases();
    assert_eq!(releases.len(), 1);
    assert_eq!(releases[0].open, ReleasedOpen { client_id, file, pin });

    match server.begin_state(state_id, file, 3, 0x35, false) {
        OpenStateDecision::Replay { result: replay, effect, .. } => {
            assert_eq!(replay, result);
            assert_eq!(effect, ReplayEffect::default());
        },
        _ => panic!("the answer was not repeated"),
    }
}

#[test]
fn failed_close_persistence_keeps_open_state_active_and_allows_retry() {
    let mut server = Server::new(config());
    let client_id = server.confirmed_client(b"close-persist-client", [0x3c; 8]);
    let file = test_file(973);
    let state_id = server.open_and_confirm(&owner(client_id, b"close-persist-owner"), file, READ);
    let reservation = server.changing(state_id, file, 3, 0x3d, false);

    server.fail_next_commit = true;
    assert_eq!(server.close(reservation).err(), Some(NfsStatus::Resource));
    let permit = server.io(state_id, file, IoAccess::Read, 0, 1).ok().unwrap();
    server.runtime.end_io(permit);
    assert!(matches!(server.begin_state(state_id, file, 3, 0x3d, false), OpenStateDecision::Execute(_)));
}

#[test]
fn pin_release_outbox_reserves_state_capacity_until_acknowledged() {
    let mut runtime_config = config();
    runtime_config.limits.max_state_objects = 1;
    let mut server = Server::new(runtime_config);
    let client_id = server.confirmed_client(b"release-outbox-client", [0x3e; 8]);
    let file = test_file(974);
    let state_id = server.open_and_confirm(&owner(client_id, b"release-outbox-owner"), file, READ);
    let reservation = server.changing(state_id, file, 3, 0x3f, false);
    let pin = reservation.pin;
    server.close(reservation).unwrap();
    assert!(!server.runtime.is_open_pin_active(file, pin));
    let releases = server.runtime.pending_pin_releases();
    assert_eq!(releases.len(), 1);

    let next_owner = owner(client_id, b"next-owner");
    let decision = server.begin_open(&next_owner, 1, READ, NONE, false, 0x40);
    assert_eq!(refused(decision).0, NfsStatus::Resource);

    assert!(server.runtime.acknowledge_pin_release(releases[0].release_id));
    assert!(server.runtime.pending_pin_releases().is_empty());
    assert!(matches!(server.begin_open(&next_owner, 1, READ, NONE, false, 0x40), OpenDecision::Execute(_)));
}

#[test]
fn open_downgrade_requires_an_actual_open_subset() {
    let mut server = Server::new(config());
    let client_id = server.confirmed_client(b"downgrade-client", [4; 8]);
    let owner = owner(client_id, b"open-owner");
    let file = test_file(100);
    let state_id = server.open_and_confirm(&owner, file, BOTH);

    let reservation = server.changing(state_id, file, 3, 0x13, false);
    assert_eq!(*server.downgrade(reservation, READ).unwrap(), ResOp::OpenDowngrade(Err(NfsStatus::Invalid)));

    let state_id = server.open(&owner, file, 4, READ, 0x14);
    let reservation = server.changing(state_id, file, 5, 0x15, false);
    assert!(matches!(*server.downgrade(reservation, READ).unwrap(), ResOp::OpenDowngrade(Ok(_))));
}

#[test]
fn repeated_open_contributions_fail_with_resource_before_completion() {
    let mut runtime_config = config();
    runtime_config.limits.max_open_contributions_per_state = 2;
    let mut server = Server::new(runtime_config);
    let client_id = server.confirmed_client(b"bounded-open-client", [0x51; 8]);
    let owner = owner(client_id, b"bounded-open-owner");
    let file = test_file(105);
    server.open_and_confirm(&owner, file, READ);
    server.open(&owner, file, 3, READ, 0x52);

    let reservation = server.opening(&owner, 4, READ, false, 0x53);
    let (reservation, status) = server.no_target(reservation, file);
    assert_eq!(status, NfsStatus::Resource);
    let step = server.runtime.complete_open_error(reservation, status);
    assert_eq!(*server.refuse(step), ResOp::Open(Err(NfsStatus::Resource)));
    assert_eq!(server.runtime.state.reserved_states, 0);

    let state = server.runtime.files.get(file).unwrap();
    assert!(state.pending_opens.is_empty());
    assert_eq!(state.shares[0].contributions.sum(), 2);
}

#[test]
fn restart_reclaim_preserves_upgrade_contributions_for_downgrade() {
    let mut source = Server::journaled(config(), Durable::start(Disk::default(), 100));
    let client_id = source.confirmed_client(b"restart-open-client", [0x61; 8]);
    let file = test_file(106);
    let open_owner = owner(client_id, b"restart-open-owner");
    source.open_and_confirm(&open_owner, file, READ);
    source.open(&open_owner, file, 3, WRITE, 0x62);
    source.journal().mark_clean_shutdown();

    let restarted = Durable::start(source.stopped(), 200);
    let recovered_open = restarted
        .journal
        .recovery()
        .records
        .iter()
        .find_map(|(_, record)| match record {
            JournalRecord::Open(open) => Some(open.clone()),
            _ => None,
        })
        .unwrap();
    assert_eq!(recovered_open.share_access, BOTH);
    assert_eq!(
        recovered_open.contributions,
        vec![
            OpenContributionRecord { share_access: READ, share_deny: NONE, count: 1 },
            OpenContributionRecord { share_access: WRITE, share_deny: NONE, count: 1 },
        ]
    );

    let mut destination = Server::journaled(config(), restarted);
    let client_id = destination.confirmed_client(b"restart-open-client", [0x61; 8]);
    let reclaim = destination.opening(&owner(client_id, b"restart-open-owner"), 1, BOTH, true, 0x63);
    let target = destination.target(reclaim, file);
    let state_id = opened(&destination.complete_open(target).ok().unwrap().result);
    let downgrade = destination.changing(state_id, file, 2, 0x64, false);
    assert!(matches!(*destination.downgrade(downgrade, READ).unwrap(), ResOp::OpenDowngrade(Ok(_))));
}

#[test]
fn close_returns_locks_held_until_originating_open_is_unlocked() {
    let mut server = Server::new(config());
    let client_id = server.confirmed_client(b"close-lock-client", [5; 8]);
    let lock_owner = owner(client_id, b"lock-owner");
    let file = test_file(101);
    let open_state_id = server.open_and_confirm(&owner(client_id, b"open-owner"), file, READ);
    let lock = new_lock(LockType::Read, false, 0, 16, 3, open_state_id, 1, &lock_owner);
    let lock_state_id = server.granted(&lock, file, 0x21);

    let reservation = server.changing(open_state_id, file, 4, 0x22, false);
    assert_eq!(*server.close(reservation).unwrap(), ResOp::Close(Err(NfsStatus::LocksHeld)));

    let unlocked = server.unlock(unlock(LockType::Read, 2, lock_state_id, 0, 16), file, 0x23);
    assert!(matches!(*unlocked, ResOp::LockUnlock(Ok(_))));

    let reservation = server.changing(open_state_id, file, 5, 0x24, false);
    assert!(matches!(*server.close(reservation).unwrap(), ResOp::Close(Ok(_))));
}

#[test]
fn empty_lock_owner_stateid_remains_usable_until_open_close() {
    let mut server = Server::new(config());
    let client_id = server.confirmed_client(b"empty-lock-client", [0x41; 8]);
    let open_owner = owner(client_id, b"empty-lock-open-owner");
    let lock_owner = owner(client_id, b"empty-lock-owner");
    let file = test_file(103);
    let open_state_id = server.open_and_confirm(&open_owner, file, READ);
    let lock = new_lock(LockType::Read, false, 0, 16, 3, open_state_id, 1, &lock_owner);
    let first_lock = server.granted(&lock, file, 0x42);
    let upgraded_open_state = server.open(&open_owner, file, 4, WRITE, 0x45);
    let permit = server.io(upgraded_open_state, file, IoAccess::Write, 0, 16).ok().unwrap();
    assert_eq!(permit.client_id, Some(client_id));
    server.runtime.end_io(permit);
    let empty_state = match *server.unlock(unlock(LockType::Read, 2, first_lock, 0, 16), file, 0x43) {
        ResOp::LockUnlock(Ok(state_id)) => state_id,
        _ => panic!("the lock was not given back"),
    };
    let lock = new_lock(LockType::Write, false, 0, 16, 5, upgraded_open_state, 3, &lock_owner);
    assert_eq!(server.lock(&lock, file, 0x46), LockResult::Failed(NfsStatus::BadSequenceId));
    let lock = more_lock(LockType::Write, 0, 16, empty_state, 3);
    assert!(matches!(server.lock(&lock, file, 0x44), LockResult::Granted(_)));
}

#[test]
fn invalid_open_stateids_do_not_renew_a_bad_seqid_client() {
    let mut server = Server::new(config());
    let client_id = server.confirmed_client(b"bad-seqid-open-client", [0x91; 8]);
    let state_id = server.open_and_confirm(&owner(client_id, b"bad-seqid-open-owner"), test_file(911), READ);

    server.now = 9;
    for (digest, require_unconfirmed) in [(0x92, true), (0x93, false), (0x94, false)] {
        assert!(matches!(
            server.begin_state(state_id, test_file(912), 4, digest, require_unconfirmed),
            OpenStateDecision::Error { status: NfsStatus::BadSequenceId, client_id: None }
        ));
    }
    server.now = 11;
    assert_eq!(server.expire_due().len(), 1);
}

#[test]
fn invalid_lock_stateids_do_not_renew_a_bad_seqid_client() {
    let mut server = Server::new(config());
    let client_id = server.confirmed_client(b"bad-seqid-lock-client", [0xa1; 8]);
    let lock_owner = owner(client_id, b"bad-seqid-lock-owner");
    let open_state_id =
        server.open_and_confirm(&owner(client_id, b"bad-seqid-lock-open-owner"), test_file(921), READ);

    server.now = 9;
    let lock = new_lock(LockType::Read, false, 0, 1, 4, open_state_id, 1, &lock_owner);
    assert!(matches!(
        server.runtime.preflight_lock(
            &lock,
            test_file(922),
            OwnerRequestDigest([0xa2; 32]),
            &Principal::Anonymous,
            server.now,
        ),
        LockPreflight::Error { status: NfsStatus::BadSequenceId, client_id: None }
    ));
    server.now = 11;
    assert_eq!(server.expire_due().len(), 1);
}

#[test]
fn invalid_locku_stateids_do_not_renew_a_bad_seqid_client() {
    let mut server = Server::new(config());
    let client_id = server.confirmed_client(b"bad-seqid-locku-client", [0xb1; 8]);
    let lock_owner = owner(client_id, b"bad-seqid-locku-owner");
    let file = test_file(931);
    let open_state_id = server.open_and_confirm(&owner(client_id, b"bad-seqid-locku-open-owner"), file, READ);
    let lock = new_lock(LockType::Read, false, 0, 1, 3, open_state_id, 1, &lock_owner);
    let lock_state_id = server.granted(&lock, file, 0xb2);

    server.now = 9;
    assert!(matches!(
        server.runtime.preflight_unlock(
            unlock(LockType::Read, 3, lock_state_id, 0, 1),
            test_file(932),
            OwnerRequestDigest([0xb3; 32]),
            &Principal::Anonymous,
            server.now,
        ),
        LockPreflight::Error { status: NfsStatus::BadSequenceId, client_id: None }
    ));
    server.now = 11;
    assert_eq!(server.expire_due().len(), 1);
}

#[test]
fn same_lock_owner_has_independent_state_per_originating_open() {
    let mut server = Server::new(config());
    let client_id = server.confirmed_client(b"composite-lock-client", [0x71; 8]);
    let file = test_file(108);
    let first_open = server.open_and_confirm(&owner(client_id, b"first-composite-open"), file, BOTH);
    let second_open = server.open(&owner(client_id, b"second-composite-open"), file, 1, BOTH, 0x70);
    let second_open = server.confirm_open(second_open, file, 2, 0x79);
    let lock_owner = owner(client_id, b"shared-protocol-lock-owner");
    let lock = new_lock(LockType::Write, false, 0, 10, 3, first_open, 1, &lock_owner);
    let first_lock = server.granted(&lock, file, 0x72);
    let lock = new_lock(LockType::Write, false, 20, 10, 3, second_open, 2, &lock_owner);
    let second_lock = server.granted(&lock, file, 0x73);
    for open in [first_open, second_open] {
        let permit = server.io(open, file, IoAccess::Write, 0, 10).ok().unwrap();
        assert_eq!(permit.client_id, Some(client_id));
        server.runtime.end_io(permit);
    }
    assert_eq!(server.lock_states(&lock_owner, file), 2);

    let unlocked = server.unlock(unlock(LockType::Write, 3, first_lock, 0, 10), file, 0x74);
    assert!(matches!(*unlocked, ResOp::LockUnlock(Ok(_))));
    let locks = &server.runtime.files.get(file).unwrap().locks;
    assert_eq!(locks.len(), 1);
    assert_eq!(locks[0].owner.open, second_open.other);
    assert_eq!(Some(locks[0].range), LockRange::from_offset_length(20, 10));

    let first_close = server.changing(first_open, file, 4, 0x75, false);
    assert!(matches!(*server.close(first_close).unwrap(), ResOp::Close(Ok(_))));
    assert_eq!(server.lock_states(&lock_owner, file), 1);

    let unlocked = server.unlock(unlock(LockType::Write, 4, second_lock, 20, 10), file, 0x76);
    assert!(matches!(*unlocked, ResOp::LockUnlock(Ok(_))));
    assert_eq!(server.release_lock_owner(&lock_owner), NfsStatus::Success);
    assert_eq!(server.lock_states(&lock_owner, file), 0);
}

#[test]
fn overflowing_io_range_is_invalid() {
    let mut server = Server::new(config());
    let client_id = server.confirmed_client(b"io-overflow-client", [0x77; 8]);
    let file = test_file(110);
    let open_state_id = server.open_and_confirm(&owner(client_id, b"io-overflow-open"), file, READ);
    assert_eq!(server.io_status(open_state_id, file, IoAccess::Read, u64::MAX, 2), NfsStatus::Invalid);
}

#[test]
fn unlock_with_pre_transition_stateid_reports_old_stateid() {
    let mut server = Server::new(config());
    let client_id = server.confirmed_client(b"old-lock-client", [0x45; 8]);
    let file = test_file(104);
    let open_state_id = server.open_and_confirm(&owner(client_id, b"old-lock-open-owner"), file, BOTH);
    let lock = new_lock(LockType::Read, false, 0, 16, 3, open_state_id, 1, &owner(client_id, b"old-lock-owner"));
    let old_lock_state = server.granted(&lock, file, 0x46);
    let unlocked = server.unlock(unlock(LockType::Read, 2, old_lock_state, 0, 16), file, 0x47);
    assert!(matches!(*unlocked, ResOp::LockUnlock(Ok(_))));
    let unlocked = server.unlock(unlock(LockType::Read, 3, old_lock_state, 0, 16), file, 0x48);
    assert_eq!(*unlocked, ResOp::LockUnlock(Err(NfsStatus::OldStateId)));
}

#[test]
fn lock_operations_reject_empty_and_overflowing_ranges_as_invalid() {
    let mut server = Server::new(config());
    let bogus_state_id = StateId { sequence_id: 1, other: [0x51; 12] };
    assert_eq!(
        server.lock_test(LockType::Read, 1, 0, &owner(7, b"range-owner"), test_file(107)).result,
        LockTestResult::Failed(NfsStatus::Invalid)
    );
    assert_eq!(
        server.lock(&more_lock(LockType::Read, 1, 0, bogus_state_id, 1), test_file(107), 0x52),
        LockResult::Failed(NfsStatus::Invalid)
    );
    let unlocked = server.unlock(unlock(LockType::Read, 1, bogus_state_id, 100, u64::MAX - 1), test_file(107), 0x53);
    assert_eq!(*unlocked, ResOp::LockUnlock(Err(NfsStatus::Invalid)));
}

#[test]
fn disjoint_lock_ranges_are_bounded_before_the_state_changes() {
    let mut runtime_config = config();
    runtime_config.limits.max_lock_ranges_per_state = 2;
    let mut server = Server::new(runtime_config);
    let client_id = server.confirmed_client(b"bounded-lock-client", [0x51; 8]);
    let lock_owner = owner(client_id, b"bounded-lock-owner");
    let file = test_file(151);
    let open_state_id = server.open_and_confirm(&owner(client_id, b"bounded-open-owner"), file, WRITE);
    let lock = new_lock(LockType::Write, false, 0, 10, 3, open_state_id, 1, &lock_owner);
    let lock_state_id = server.granted(&lock, file, 0x52);
    let lock_state_id = server.granted(&more_lock(LockType::Write, 20, 10, lock_state_id, 2), file, 0x53);
    assert_eq!(
        server.lock(&more_lock(LockType::Write, 40, 10, lock_state_id, 3), file, 0x54),
        LockResult::Failed(NfsStatus::Resource)
    );

    let lock_key = LockStateOwner { owner: lock_owner, open: open_state_id.other };
    let ranges: Vec<LockRange> = server
        .runtime
        .files
        .get(file)
        .unwrap()
        .locks
        .iter()
        .filter(|held| held.owner == lock_key)
        .map(|held| held.range)
        .collect();
    assert_eq!(
        ranges,
        vec![
            LockRange::from_offset_length(0, 10).unwrap(),
            LockRange::from_offset_length(20, 10).unwrap(),
        ]
    );
}

#[test]
fn split_unlock_persists_and_recovers_both_remaining_ranges() {
    let mut server = Server::journaled(config(), Durable::start(Disk::default(), 100));
    let client_id = server.confirmed_client(b"split-lock-client", [0x61; 8]);
    let lock_owner = owner(client_id, b"split-lock-owner");
    let file = test_file(161);
    let open_state_id = server.open_and_confirm(&owner(client_id, b"split-open-owner"), file, WRITE);
    let lock = new_lock(LockType::Write, false, 0, 100, 3, open_state_id, 1, &lock_owner);
    let lock_state_id = server.granted(&lock, file, 0x62);
    let unlocked = server.unlock(unlock(LockType::Write, 2, lock_state_id, 40, 20), file, 0x63);
    assert!(matches!(*unlocked, ResOp::LockUnlock(Ok(_))));

    let restarted = Durable::start(server.stopped(), 200);
    let stable_lock = restarted
        .journal
        .recovery()
        .records
        .iter()
        .find_map(|(_, record)| match record {
            JournalRecord::Lock(lock) => Some(lock.clone()),
            _ => None,
        })
        .unwrap();
    assert_eq!(
        stable_lock.ranges,
        vec![
            LockRangeRecord { offset: 0, length: 40, write: true },
            LockRangeRecord { offset: 60, length: 40, write: true },
        ]
    );

    let restarted = Server::journaled(config(), restarted);
    restarted.runtime.state.recovered_locks.order_known();
    let recovered = restarted.runtime.state.recovered_locks.value_at(0);
    assert_eq!(recovered.ranges.len(), 2);
    for (piece, (offset, length)) in recovered.ranges.iter().zip([(0, 40), (60, 40)]) {
        assert_eq!(piece.access, LockAccess::Write);
        assert_eq!(Some(piece.range), LockRange::from_offset_length(offset, length));
    }
}

#[test]
fn downgrade_rejects_access_incompatible_with_originating_locks() {
    let mut server = Server::new(config());
    let client_id = server.confirmed_client(b"downgrade-lock-client", [6; 8]);
    let open_owner = owner(client_id, b"open-owner");
    let lock_owner = owner(client_id, b"lock-owner");
    let file = test_file(102);
    server.open_and_confirm(&open_owner, file, READ);
    let open_state_id = server.open(&open_owner, file, 3, WRITE, 0x31);
    let lock = new_lock(LockType::Write, false, 8, 8, 4, open_state_id, 1, &lock_owner);
    let lock_state_id = server.granted(&lock, file, 0x32);

    let reservation = server.changing(open_state_id, file, 5, 0x33, false);
    assert_eq!(*server.downgrade(reservation, READ).unwrap(), ResOp::OpenDowngrade(Err(NfsStatus::LocksHeld)));

    let unlocked = server.unlock(unlock(LockType::Write, 2, lock_state_id, 8, 8), file, 0x34);
    assert!(matches!(*unlocked, ResOp::LockUnlock(Ok(_))));
    let reservation = server.changing(open_state_id, file, 6, 0x35, false);
    assert!(matches!(*server.downgrade(reservation, READ).unwrap(), ResOp::OpenDowngrade(Ok(_))));
}

#[test]
fn recovery_links_locks_to_open_identity_across_sequence_transitions() {
    let (mut recovered, _, _) = recovered_state(PreviousShutdown::Unclean);
    let mut transitioned_open_token = [0; 16];
    for (key, record) in &mut recovered.records {
        if let JournalRecord::Open(open) = record {
            open.state_token[..4].copy_from_slice(&9u32.to_be_bytes());
            transitioned_open_token = open.state_token;
            *key = JournalKey::Open { state_token: open.state_token };
        }
    }
    let server = Server::recovering(config(), Some(&recovered));
    server.runtime.state.recovered_locks.order_known();
    let recovered_lock = server.runtime.state.recovered_locks.value_at(0);
    assert_eq!(recovered_lock.previous_open_state_token, transitioned_open_token);
}

#[test]
fn recovery_rejects_duplicate_state_object_identity_across_open_and_lock() {
    let (mut recovered, _, _) = recovered_state(PreviousShutdown::Unclean);
    let open_other = recovered
        .records
        .iter()
        .find_map(|(_, record)| match record {
            JournalRecord::Open(open) => Some(state_other(open.state_token)),
            _ => None,
        })
        .unwrap();
    for (key, record) in &mut recovered.records {
        if let JournalRecord::Lock(lock) = record {
            lock.state_token[4..].copy_from_slice(&open_other);
            *key = JournalKey::Lock { state_token: lock.state_token };
        }
    }
    let replies = operations(&recovered.records);
    assert_eq!(
        Nfs4Runtime::new(config(), Some(&recovered), &replies, 0).err(),
        Some(RuntimeConfigError::Recovery)
    );
}

#[test]
fn recovery_accepts_state_that_survived_more_than_one_restart() {
    let (mut recovered, _, _) = recovered_state(PreviousShutdown::Unclean);
    let boot = recovered.previous_boot.as_mut().unwrap();
    boot.boot_tag ^= 0x00ff_00ff;
    let immediate_previous_tag = boot.boot_tag;
    let client_tag = recovered
        .records
        .iter()
        .find_map(|(_, record)| match record {
            JournalRecord::Client(client) => Some((client.client_id >> 32) as u32),
            _ => None,
        })
        .unwrap();
    assert_ne!(immediate_previous_tag, client_tag);
    let replies = operations(&recovered.records);
    assert!(Nfs4Runtime::new(config(), Some(&recovered), &replies, 0).is_ok());
}

#[test]
fn recovery_gate_errors_preserve_authenticated_identity_for_open_and_lock_test() {
    let (recovered, _, file) = recovered_state(PreviousShutdown::Unclean);
    let mut server = Server::recovering(config(), Some(&recovered));
    let recovered_client = server.confirmed_client(b"recovered-client", [0x44; 8]);
    let decision = server.begin_open(&owner(recovered_client, b"recovery-gate-open"), 1, READ, NONE, false, 0x91);
    assert_eq!(refused(decision), (NfsStatus::Grace, Some(recovered_client)));
    let lock_owner = owner(recovered_client, b"recovery-gate-lockt");
    assert_eq!(
        server.lock_test(LockType::Read, 0, 1, &lock_owner, file),
        LockTestDecision { result: LockTestResult::Failed(NfsStatus::Grace), client_id: Some(recovered_client) }
    );

    let unrecovered_client = server.confirmed_client(b"unrecovered-client", [0x45; 8]);
    let decision = server.begin_open(&owner(unrecovered_client, b"reclaim-bad-open"), 1, READ, NONE, true, 0x92);
    assert_eq!(refused(decision), (NfsStatus::ReclaimBad, Some(unrecovered_client)));

    let mut server = Server::new(config());
    let no_grace_client = server.confirmed_client(b"no-grace-client", [0x46; 8]);
    let decision = server.begin_open(&owner(no_grace_client, b"no-grace-open"), 1, READ, NONE, true, 0x93);
    assert_eq!(refused(decision), (NfsStatus::NoGrace, Some(no_grace_client)));
}

#[test]
fn clean_and_unclean_restarts_hydrate_exact_reclaim_inventory() {
    for shutdown in [PreviousShutdown::Clean, PreviousShutdown::Unclean] {
        let (recovered, previous_client_id, file) = recovered_state(shutdown);
        let mut server = Server::recovering(config(), Some(&recovered));
        assert_eq!(server.runtime.state.recovered_opens.len(), 1);
        assert_eq!(server.runtime.state.recovered_locks.len(), 1);
        assert_eq!(server.runtime.state.recovered_replays.len(), 1);

        let client_id = server.confirmed_client(b"recovered-client", [0x44; 8]);
        assert_eq!(server.previous_client_ids(client_id, &Principal::Anonymous), vec![previous_client_id]);
        let descriptor = server.runtime.confirmed_client_callback(client_id, &Principal::Anonymous).ok().unwrap();
        assert_eq!(descriptor.callback_identifier, 7);
        assert_eq!(descriptor.callback, callback(b"127.0.0.1.8.1"));

        let open_owner = owner(client_id, b"recovered-open-owner");
        let decision = server.begin_open(&open_owner, 1, READ, NONE, false, 1);
        assert_eq!(refused(decision).0, NfsStatus::Grace);

        let false_reclaim = server.opening(&open_owner, 1, READ, true, 2);
        let (false_reclaim, status) = server.no_target(false_reclaim, test_file(701));
        assert_eq!(status, NfsStatus::ReclaimBad);
        let step = server.runtime.complete_open_error(false_reclaim, status);
        assert_eq!(*server.refuse(step), ResOp::Open(Err(NfsStatus::ReclaimBad)));

        let exact_reclaim = server.opening(&open_owner, 2, READ, true, 3);
        let target = server.target(exact_reclaim, file);
        let completion = server.complete_open(target).ok().unwrap();
        let open = match completion.result.as_ref() {
            ResOp::Open(Ok(open)) => open.clone(),
            result => panic!("the file was not opened: {result:?}"),
        };
        assert_eq!(open.result_flags & OPEN4_RESULT_CONFIRM, 0);
        let error = server.io(open.state_id, file, IoAccess::Read, 0, 1).err().unwrap();
        assert_eq!((error.status, error.client_id), (NfsStatus::Grace, Some(client_id)));
        assert_eq!(server.runtime.state.recovered_opens.len(), 0);

        let false_owner = owner(client_id, b"false-lock-owner");
        let lock = new_lock(LockType::Read, true, 10, 20, 3, open.state_id, 1, &false_owner);
        assert_eq!(server.lock(&lock, file, 4), LockResult::Failed(NfsStatus::ReclaimBad));
        let exact_owner = owner(client_id, b"recovered-lock-owner");
        let lock = new_lock(LockType::Read, true, 10, 20, 4, open.state_id, 1, &exact_owner);
        assert!(matches!(server.lock(&lock, file, 5), LockResult::Granted(_)));
        assert_eq!(server.runtime.state.recovered_locks.len(), 0);

        assert!(!server.runtime.grace_cleanup_due(server.now));
        assert_eq!(server.finish_grace_if_due(), Ok(false));
        server.now = 10;
        assert!(server.runtime.grace_cleanup_due(server.now));
        assert_eq!(server.finish_grace_if_due(), Ok(true));
        assert!(!server.runtime.grace_cleanup_due(server.now));
        assert_eq!(server.finish_grace_if_due(), Ok(false));
        assert_eq!(server.runtime.state.recovered_locks.len(), 0);
        assert_eq!(server.runtime.state.recovered_replays.len(), 0);
    }
}

#[test]
fn recovery_preserves_stateid_replay_renewal_source() {
    let (mut recovered, previous_client_id, _) = recovered_state(PreviousShutdown::Unclean);
    renew_by_stateid(&mut recovered, previous_client_id);
    let server = Server::recovering(config(), Some(&recovered));
    server.runtime.state.recovered_replays.order_known();
    let replay = server.runtime.state.recovered_replays.value_at(0);
    assert_eq!(replay.effect.stateid_renewal_client, Some(previous_client_id));
}

#[test]
fn grace_cleanup_retries_without_dropping_recovery_state_after_store_failure() {
    let durable = Durable::start(Disk::default(), 100);
    let (recovered, _, _) = recovered_state(PreviousShutdown::Unclean);
    let mut server = Server::recovering(durable.settings(config()), Some(&recovered));
    server.durable = Some(durable);

    server.now = 10;
    assert!(server.runtime.grace_cleanup_due(server.now));
    server.fail_next_commit = true;
    assert_eq!(server.finish_grace_if_due(), Err(NfsStatus::Resource));
    assert!(server.runtime.grace_cleanup_due(server.now));
    assert_eq!(server.runtime.state.recovered_opens.len(), 1);
    assert_eq!(server.runtime.state.recovered_locks.len(), 1);
    assert_eq!(server.runtime.state.recovered_replays.len(), 1);
    assert_ne!(server.runtime.state.recovered_cleanup_keys.len(), 0);

    assert_eq!(server.finish_grace_if_due(), Ok(true));
    assert!(!server.runtime.grace_cleanup_due(server.now));
    assert_eq!(server.runtime.state.recovered_opens.len(), 0);
    assert_eq!(server.runtime.state.recovered_locks.len(), 0);
    assert_eq!(server.runtime.state.recovered_replays.len(), 0);
    assert_eq!(server.runtime.state.recovered_cleanup_keys.len(), 0);
    assert!(server.records.is_empty());
}

#[test]
fn lease_expiry_releases_client_and_state_capacity_for_reuse() {
    let mut runtime_config = config();
    runtime_config.limits.max_clients = 1;
    runtime_config.limits.max_state_objects = 1;
    let mut server = Server::new(runtime_config);
    let first_client = server.confirmed_client(b"first-client", [1; 8]);
    let first_state = server.open(&owner(first_client, b"first-owner"), test_file(801), 1, READ, 1);
    assert_eq!(server.runtime.state.stateids.len(), 1);

    server.now = 10;
    let releases = server.expire_due();
    assert_eq!(releases.len(), 1);
    assert_eq!(server.runtime.state.stateids.len(), 0);
    assert_eq!(server.runtime.clients.client_owners.len(), 0);
    assert_eq!(server.io_status(first_state, test_file(801), IoAccess::Read, 0, 1), NfsStatus::Expired);
    assert!(server.runtime.acknowledge_pin_release(releases[0].release_id));

    let second_client = server.confirmed_client(b"second-client", [2; 8]);
    let second_state = server.open(&owner(second_client, b"second-owner"), test_file(802), 1, READ, 2);
    assert_ne!(first_state.other, second_state.other);
    assert_eq!(&first_state.other[..8], &second_state.other[..8]);
}

#[test]
fn lease_expiry_deletes_durable_client_open_and_replay_records() {
    let mut server = Server::journaled(config(), Durable::start(Disk::default(), 100));
    let client_id = server.confirmed_client(b"durable-client", [9; 8]);
    server.open(&owner(client_id, b"durable-owner"), test_file(901), 1, READ, 9);
    assert_eq!(server.journal().disk.records.len(), 7);

    server.now = 10;
    assert_eq!(server.expire_due().len(), 1);
    let restarted = Durable::start(server.stopped(), 200);
    assert!(restarted.journal.recovery().records.iter().all(|(_, record)| !matches!(
        record,
        JournalRecord::Client(_) | JournalRecord::Open(_) | JournalRecord::Lock(_) | JournalRecord::Replay(_)
    )));
}

#[test]
fn migration_recovery_prepare_is_invisible_and_activation_merges_with_live_clients() {
    let mut server = Server::new(config());
    let live_client = server.confirmed_client(b"unrelated-live-client", [1; 8]);
    let (recovered, previous_client_id, _) = recovered_state(PreviousShutdown::Unclean);
    let replies = operations(&recovered.records);

    let prepared = server.runtime.prepare_recovery_import(&recovered, &replies, 30).ok().unwrap();
    assert_eq!(server.runtime.validate_recovery_import(&prepared), Ok(()));
    assert_eq!(server.runtime.state.recovered_opens.len(), 0);
    assert!(server.previous_client_ids(live_client, &Principal::Anonymous).is_empty());

    assert_eq!(server.runtime.activate_recovery_import(&prepared, server.now), Ok(()));
    assert_eq!(server.runtime.state.recovered_opens.len(), 1);
    assert_eq!(server.renew(live_client), NfsStatus::Success);
    let blocked = owner(live_client, b"blocked-during-imported-grace");
    let decision = server.begin_open(&blocked, 1, READ, NONE, false, 0x91);
    assert_eq!(refused(decision).0, NfsStatus::Grace);
    assert_eq!(server.io_status(ANONYMOUS_STATE_ID, test_file(702), IoAccess::Read, 0, 1), NfsStatus::Grace);
    assert_eq!(server.io_status(READ_BYPASS_STATE_ID, test_file(702), IoAccess::Read, 0, 1), NfsStatus::Grace);
    server.now = 10;
    assert!(!server.runtime.grace_cleanup_due(server.now));
    assert_eq!(server.runtime.validate_recovery_import(&prepared), Ok(()));
    assert_eq!(server.runtime.activate_recovery_import(&prepared, server.now), Ok(()));
    assert_eq!(server.runtime.state.recovered_opens.len(), 1);

    let imported_client = server.confirmed_client(b"recovered-client", [0x44; 8]);
    assert_eq!(server.previous_client_ids(imported_client, &Principal::Anonymous), vec![previous_client_id]);
}

#[test]
fn migration_import_allows_shared_client_and_identical_replay_across_exports() {
    let mut server = Server::new(config());
    let (mut first_recovered, previous_client_id, _) = recovered_state(PreviousShutdown::Unclean);
    renew_by_stateid(&mut first_recovered, previous_client_id);
    let previous_boot_tag = first_recovered.previous_boot.as_ref().unwrap().boot_tag;
    let second_open_token = state_token(StateId { sequence_id: 1, other: state_other_of(previous_boot_tag, 5) });
    let second_lock_token = state_token(StateId { sequence_id: 1, other: state_other_of(previous_boot_tag, 6) });
    let second_file = RuntimeFile { export_id: ExportId(8), object: ObjectKey { file_id: 701, generation: 1 } };
    let (mut second_recovered, _, _) = recovered_state(PreviousShutdown::Unclean);
    renew_by_stateid(&mut second_recovered, previous_client_id);
    for (key, record) in &mut second_recovered.records {
        match record {
            JournalRecord::Open(open) => {
                *key = JournalKey::Open { state_token: second_open_token };
                open.state_token = second_open_token;
                open.object = second_file.stable();
            },
            JournalRecord::Lock(lock) => {
                *key = JournalKey::Lock { state_token: second_lock_token };
                lock.state_token = second_lock_token;
                lock.open_state_token = second_open_token;
                lock.object = second_file.stable();
            },
            _ => {},
        }
    }

    let replies = operations(&first_recovered.records);
    let first = server.runtime.prepare_recovery_import(&first_recovered, &replies, 10).ok().unwrap();
    let second = server.runtime.prepare_recovery_import(&second_recovered, &replies, 10).ok().unwrap();
    assert_eq!(server.runtime.activate_recovery_import(&first, server.now), Ok(()));
    assert_eq!(server.runtime.validate_recovery_import(&second), Ok(()));
    assert_eq!(server.runtime.activate_recovery_import(&second, server.now), Ok(()));

    let clients = &server.runtime.clients.recovered_clients;
    clients.order_known();
    let mut found = 0;
    for at in 0..clients.len() {
        found += clients.value_at(at).to_vec().iter().filter(|id| **id == previous_client_id).count();
    }
    assert_eq!(found, 1);
    assert_eq!(server.runtime.state.recovered_opens.len(), 2);
    assert_eq!(server.runtime.state.recovered_locks.len(), 2);
    assert_eq!(server.runtime.state.recovered_replays.len(), 1);
    assert_eq!(server.runtime.state.recovered_cleanup_keys.len(), 6);
    server.runtime.state.recovered_replays.order_known();
    let replay = server.runtime.state.recovered_replays.value_at(0);
    assert_eq!(replay.effect.stateid_renewal_client, Some(previous_client_id));
}

#[test]
fn an_import_compares_operations_and_not_their_bytes() {
    let mut server = Server::new(config());
    let (first_recovered, _, _) = recovered_state(PreviousShutdown::Unclean);
    let replies = operations(&first_recovered.records);
    let first = server.runtime.prepare_recovery_import(&first_recovered, &replies, 10).ok().unwrap();
    assert_eq!(server.runtime.activate_recovery_import(&first, server.now), Ok(()));

    let (mut second_recovered, _, _) = recovered_state(PreviousShutdown::Unclean);
    for (_, record) in &mut second_recovered.records {
        if let JournalRecord::Replay(replay) = record {
            replay.reply.push(0);
        }
    }
    let same = server.runtime.prepare_recovery_import(&second_recovered, &replies, 10).ok().unwrap();
    assert_eq!(server.runtime.validate_recovery_import(&same), Ok(()));
    assert_eq!(server.runtime.activate_recovery_import(&same, 5), Ok(()));
    assert_eq!(server.runtime.state.recovered_replays.len(), 1);

    let replies = operations(&second_recovered.records);
    let other = server.runtime.prepare_recovery_import(&second_recovered, &replies, 10).ok().unwrap();
    assert_eq!(server.runtime.validate_recovery_import(&other), Err(RuntimeConfigError::Recovery));
    assert_eq!(server.runtime.activate_recovery_import(&other, 5), Err(RuntimeConfigError::Recovery));
    assert_eq!(server.runtime.state.recovered_replays.len(), 1);
}

#[test]
fn each_outdated_registration_is_dropped_once() {
    let mut server = Server::new(config());
    let principal = Arc::new(Principal::Anonymous);
    let (one, _) = server.registered(&set_client(b"first", [1; 8], b"127.0.0.1.8.1"), &principal);
    let (two, _) = server.registered(&set_client(b"second", [2; 8], b"127.0.0.1.8.2"), &principal);
    server.now = 10;
    match server.runtime.set_client_id(&set_client(b"third", [3; 8], b"127.0.0.1.8.3"), &principal, server.now) {
        RegisterStep::Register(plan) => {
            let mut stale = plan.stale.clone();
            stale.sort();
            assert_eq!(stale, vec![one, two]);
        },
        RegisterStep::Done(result) => panic!("the registration was refused: {result:?}"),
    }
}

#[test]
fn a_server_is_restarted_through_its_journal() {
    let mut server = Server::journaled(config(), Durable::start(Disk::default(), 100));
    let first_boot = server.journal().journal.boot();
    let identity = server.journal().journal.server_identity();
    let handle_key = server.journal().journal.handle_key();
    let client_id = server.confirmed_client(b"restarted-client", [0x21; 8]);
    let open_owner = owner(client_id, b"restarted-open-owner");
    let lock_owner = owner(client_id, b"restarted-lock-owner");
    let file = test_file(777);
    let open_state_id = server.open_and_confirm(&open_owner, file, BOTH);
    let lock = new_lock(LockType::Write, false, 5, 10, 3, open_state_id, 1, &lock_owner);
    server.granted(&lock, file, 0x31);
    server.journal().mark_clean_shutdown();

    let restarted = Durable::start(server.stopped(), 200);
    let boot = restarted.journal.boot();
    assert!(restarted.journal.server_identity() == identity);
    assert!(restarted.journal.handle_key() == handle_key);
    assert_ne!(boot.verifier, first_boot.verifier);
    assert_ne!(boot.boot_tag, first_boot.boot_tag);
    assert!(!boot.clean_shutdown);
    let recovery = restarted.journal.recovery();
    assert_eq!(recovery.previous_shutdown, PreviousShutdown::Clean);
    assert_eq!(recovery.previous_boot.as_ref().map(|run| run.boot_tag), Some(first_boot.boot_tag));
    assert_eq!(recovery.records.len(), 5);

    let mut server = Server::journaled(config(), restarted);
    assert_eq!(server.runtime.state.recovered_opens.len(), 1);
    assert_eq!(server.runtime.state.recovered_locks.len(), 1);
    assert_eq!(server.runtime.state.recovered_replays.len(), 2);
    let current = server.confirmed_client(b"restarted-client", [0x21; 8]);
    assert_eq!(server.previous_client_ids(current, &Principal::Anonymous), vec![client_id]);
    let reclaim = server.opening(&owner(current, b"restarted-open-owner"), 1, BOTH, true, 0x32);
    let target = server.target(reclaim, file);
    let state_id = opened(&server.complete_open(target).ok().unwrap().result);
    assert_eq!(server.runtime.state.recovered_opens.len(), 0);
    let lock_owner = owner(current, b"restarted-lock-owner");
    let lock = new_lock(LockType::Write, true, 5, 10, 2, state_id, 1, &lock_owner);
    server.granted(&lock, file, 0x33);
    assert_eq!(server.runtime.state.recovered_locks.len(), 0);

    let unclean = Durable::start(server.stopped(), 300);
    assert_eq!(unclean.journal.recovery().previous_shutdown, PreviousShutdown::Unclean);
    assert!(unclean.journal.server_identity() == identity);
}

#[test]
fn a_set_up_that_no_server_can_run_with_is_refused() {
    let nothing = Vec::new();
    let mut unusable = config();
    unusable.lease_duration = 0;
    assert_eq!(Nfs4Runtime::new(unusable, None, &nothing, 0).err(), Some(RuntimeConfigError::Lease));
    for boot_tag in [0, u32::MAX] {
        let mut unusable = config();
        unusable.boot_tag = boot_tag;
        assert_eq!(Nfs4Runtime::new(unusable, None, &nothing, 0).err(), Some(RuntimeConfigError::StateId));
    }
    let mut unusable = config();
    unusable.limits.max_state_objects = 0;
    assert_eq!(Nfs4Runtime::new(unusable, None, &nothing, 0).err(), Some(RuntimeConfigError::StateId));

    let (recovered, _, _) = recovered_state(PreviousShutdown::Unclean);
    let mut unreadable = operations(&recovered.records);
    assert_eq!(unreadable.iter().filter(|operation| operation.is_some()).count(), 1);
    for operation in &mut unreadable {
        *operation = None;
    }
    assert_eq!(
        Nfs4Runtime::new(config(), Some(&recovered), &unreadable, 0).err(),
        Some(RuntimeConfigError::Recovery)
    );

    let runtime = Nfs4Runtime::new(config(), None, &nothing, 0).ok().unwrap();
    assert_eq!(runtime.write_verifier(), [0x5a; 8]);
    assert_eq!(runtime.lease_duration(), 10);
    assert_eq!(runtime.grace_duration(), 10);
}

#[test]
fn pins_and_confirmations_are_digests() {
    let mut server = Server::new(config());
    let args = set_client(b"client", [1; 8], b"127.0.0.1.8.1");
    let (client_id, confirmation) = server.registered(&args, &Arc::new(Principal::Anonymous));
    assert_eq!(client_id, (0x1234_5678 << 32) | 1);
    assert_eq!(confirmation, CONFIRMATION);
    let wrong = [confirmation[0] ^ 1; 8];
    assert_eq!(server.confirm_client(client_id, wrong, &Principal::Anonymous), NfsStatus::StaleClientId);
    assert_eq!(server.confirm_client(client_id, confirmation, &Principal::Anonymous), NfsStatus::Success);
    assert_eq!(server.confirm_client(client_id, confirmation, &Principal::Anonymous), NfsStatus::Success);

    let reservation = server.opening(&owner(client_id, b"open-owner"), 1, READ, false, 1);
    assert_eq!(reservation.provisional_pin(), PIN);
    let target = server.target(reservation, test_file(1));
    assert!(target.needs_retain());
    assert_eq!(target.pin(), PIN);
    assert!(server.runtime.is_open_pin_active(test_file(1), PIN) == false);
    let state_id = opened(&server.complete_open(target).ok().unwrap().result);
    assert_eq!(server.open_pin(state_id), PIN);
    assert!(server.runtime.is_open_pin_active(test_file(1), PIN));
}

#[test]
fn a_conflicting_lock_is_told_with_its_owner() {
    let mut server = Server::new(config());
    let client_id = server.confirmed_client(b"client", [1; 8]);
    let file = test_file(400);
    let first_open = server.open_and_confirm(&owner(client_id, b"first-open"), file, BOTH);
    let second_open = server.open(&owner(client_id, b"second-open"), file, 1, BOTH, 0x70);
    let second_open = server.confirm_open(second_open, file, 2, 0x71);
    let holder = owner(client_id, b"holder");
    let seeker = owner(client_id, b"seeker");
    let lock = new_lock(LockType::Write, false, 100, 50, 3, first_open, 1, &holder);
    let held = server.granted(&lock, file, 0x72);
    assert_eq!(held.sequence_id, 1);

    let denial = LockDenied { offset: 100, length: 50, lock_type: LockType::Write, owner: holder.clone() };
    let lock = new_lock(LockType::BlockingRead, false, 149, 10, 3, second_open, 1, &seeker);
    assert_eq!(server.lock(&lock, file, 0x73), LockResult::Denied(denial.clone()));
    assert_eq!(
        server.lock_test(LockType::Read, 0, u64::MAX, &seeker, file).result,
        LockTestResult::Denied(denial)
    );
    assert_eq!(server.lock_test(LockType::Read, 150, u64::MAX, &seeker, file).result, LockTestResult::Free);
    assert_eq!(server.lock_test(LockType::Write, 0, u64::MAX, &holder, file).result, LockTestResult::Free);

    let read_only = server.open(&owner(client_id, b"third-open"), file, 1, READ, 0x74);
    let read_only = server.confirm_open(read_only, file, 2, 0x75);
    let lock = new_lock(LockType::Write, false, 500, 10, 3, read_only, 1, &owner(client_id, b"reader"));
    assert_eq!(server.lock(&lock, file, 0x76), LockResult::Failed(NfsStatus::OpenMode));
    assert_eq!(server.release_lock_owner(&holder), NfsStatus::LocksHeld);
}

#[test]
fn a_denied_share_is_refused_and_leaves_no_trace() {
    let mut server = Server::new(config());
    let client_id = server.confirmed_client(b"client", [1; 8]);
    let file = test_file(401);
    let denying = owner(client_id, b"denying");
    let reservation = match server.begin_open(&denying, 1, READ, WRITE, false, 1) {
        OpenDecision::Execute(reservation) => reservation,
        _ => panic!("the open was not begun"),
    };
    let target = server.target(reservation, file);
    let state_id = opened(&server.complete_open(target).ok().unwrap().result);

    let refused_open = server.opening(&owner(client_id, b"writer"), 1, WRITE, false, 2);
    let (refused_open, status) = server.no_target(refused_open, file);
    assert_eq!(status, NfsStatus::ShareDenied);
    let step = server.runtime.complete_open_error(refused_open, status);
    assert_eq!(*server.refuse(step), ResOp::Open(Err(NfsStatus::ShareDenied)));
    assert_eq!(server.io_status(ANONYMOUS_STATE_ID, file, IoAccess::Write, 0, 1), NfsStatus::Locked);
    assert_eq!(server.io_status(state_id, file, IoAccess::Write, 0, 1), NfsStatus::OpenMode);
    assert_eq!(server.runtime.state.reserved_states, 0);
    assert_eq!(server.runtime.files.get(file).unwrap().shares.len(), 1);
}

#[test]
fn a_failed_commit_leaves_locks_and_opens_as_they_were() {
    let mut server = Server::new(config());
    let client_id = server.confirmed_client(b"client", [1; 8]);
    let file = test_file(402);
    let open_owner = owner(client_id, b"open-owner");
    let lock_owner = owner(client_id, b"lock-owner");
    let open_state_id = server.open_and_confirm(&open_owner, file, BOTH);

    let lock = new_lock(LockType::Write, false, 0, 10, 3, open_state_id, 1, &lock_owner);
    server.fail_next_commit = true;
    assert_eq!(server.lock(&lock, file, 1), LockResult::Failed(NfsStatus::Resource));
    assert!(server.runtime.files.get(file).unwrap().locks.is_empty());
    assert_eq!(server.runtime.state.stateids.len(), 1);
    let lock_state_id = server.granted(&lock, file, 1);

    server.fail_next_commit = true;
    let unlocked = server.unlock(unlock(LockType::Write, 2, lock_state_id, 0, 5), file, 2);
    assert_eq!(*unlocked, ResOp::LockUnlock(Err(NfsStatus::Resource)));
    assert_eq!(Some(server.runtime.files.get(file).unwrap().locks[0].range), LockRange::from_offset_length(0, 10));
    let unlocked = server.unlock(unlock(LockType::Write, 2, lock_state_id, 0, 10), file, 2);
    assert!(matches!(*unlocked, ResOp::LockUnlock(Ok(_))));

    server.open(&open_owner, file, 4, READ, 3);
    let narrowed = server.open(&open_owner, file, 5, READ, 4);
    let reservation = server.changing(narrowed, file, 6, 5, false);
    server.fail_next_commit = true;
    assert_eq!(server.downgrade(reservation, READ).err(), Some(NfsStatus::Resource));
    let permit = server.io(narrowed, file, IoAccess::Write, 0, 1).ok().unwrap();
    server.runtime.end_io(permit);

    server.fail_next_commit = true;
    assert_eq!(server.release_lock_owner(&lock_owner), NfsStatus::Resource);
    assert_eq!(server.lock_states(&lock_owner, file), 1);
    assert_eq!(server.release_lock_owner(&lock_owner), NfsStatus::Success);
    assert_eq!(server.lock_states(&lock_owner, file), 0);
}

#[test]
fn answers_of_lock_owners_are_repeated() {
    let mut server = Server::new(config());
    let client_id = server.confirmed_client(b"client", [1; 8]);
    let file = test_file(403);
    let open_state_id = server.open_and_confirm(&owner(client_id, b"open-owner"), file, BOTH);
    let lock_owner = owner(client_id, b"lock-owner");
    let lock = new_lock(LockType::Write, false, 0, 10, 3, open_state_id, 1, &lock_owner);
    let granted = server.lock(&lock, file, 1);
    assert_eq!(server.lock(&lock, file, 1), granted);
    let lock_state_id = match granted {
        LockResult::Granted(state_id) => state_id,
        result => panic!("the lock was not granted: {result:?}"),
    };
    let unlocked = server.unlock(unlock(LockType::Write, 2, lock_state_id, 0, 10), file, 2);
    assert_eq!(server.unlock(unlock(LockType::Write, 2, lock_state_id, 0, 10), file, 2), unlocked);
    let other = server.unlock(unlock(LockType::Write, 2, lock_state_id, 0, 9), file, 3);
    assert_eq!(*other, ResOp::LockUnlock(Err(NfsStatus::BadSequenceId)));
    assert!(matches!(
        server.runtime.preflight_unlock(
            unlock(LockType::Write, 2, lock_state_id, 0, 10),
            file,
            OwnerRequestDigest([2; 32]),
            &Principal::Anonymous,
            server.now,
        ),
        LockPreflight::Replay { .. }
    ));
}

#[test]
fn a_revoked_client_leaves_nothing_behind() {
    let mut server = Server::new(config());
    let client_id = server.confirmed_client(b"client", [1; 8]);
    let file = test_file(404);
    let open_state_id = server.open_and_confirm(&owner(client_id, b"open-owner"), file, BOTH);
    let lock = new_lock(LockType::Write, false, 0, 10, 3, open_state_id, 1, &owner(client_id, b"lock-owner"));
    let lock_state_id = server.granted(&lock, file, 1);
    let pin = server.open_pin(open_state_id);

    server.now = 10;
    let releases = server.expire_due();
    assert_eq!(releases.len(), 1);
    assert_eq!(releases[0].open, ReleasedOpen { client_id, file, pin });
    assert!(server.records.is_empty());
    assert_eq!(server.runtime.state.open_owners.len(), 0);
    assert_eq!(server.runtime.state.lock_owners.len(), 0);
    assert_eq!(server.runtime.state.stateids.len(), 0);
    assert!(!server.runtime.is_open_pin_active(file, pin));
    assert_eq!(server.io_status(lock_state_id, file, IoAccess::Read, 0, 1), NfsStatus::Expired);
    assert!(server.expire_due().is_empty());
    assert!(server.runtime.acknowledge_pin_release(releases[0].release_id));
    assert!(!server.runtime.acknowledge_pin_release(releases[0].release_id));
}

#[test]
fn a_collision_names_the_user_of_the_name() {
    let mut server = Server::new(config());
    let client_id = server.confirmed_client(b"client", [1; 8]);
    let other_principal = auth_sys(1, b"host");
    let args = set_client(b"client", [2; 8], b"elsewhere");
    let collision = server.runtime.setclientid_principal_collision(&args, &other_principal).unwrap();
    assert_eq!(collision.client_id, client_id);
    assert!(collision.previous_client_ids.to_vec().is_empty());
    assert_eq!(collision.client_using, callback(b"127.0.0.1.8.1"));
    assert!(server.runtime.setclientid_principal_collision(&args, &Principal::Anonymous).is_none());

    let long = set_client(&[7; 65], [1; 8], b"127.0.0.1.8.1");
    assert_eq!(
        server.set_client_id(&long, &Arc::new(Principal::Anonymous)),
        SetClientIdResult::Failed(NfsStatus::Resource)
    );
}

#[test]
fn cancelled_open_caller_drains_ambiguous_persistence_and_commits_state() {
    let mut server = Server::new(config());
    let client_id = server.confirmed_client(b"persist-cancel-client", [0x3a; 8]);
    let open_owner = owner(client_id, b"persist-cancel-owner");
    let file = test_file(972);
    let reservation = server.opening(&open_owner, 1, READ, false, 0x3b);
    let target = server.target(reservation, file);
    let pin = target.pin();

    let change = ChangeInfo { atomic: true, before: 1, after: 2 };
    let plan = server.runtime.complete_open(target, change, Arc::new(Vec::new()), OpenDelegation::Absent).ok().unwrap();
    let (plan, batch) = server.runtime.ready_open(plan, &b"reply".to_vec()).ok().unwrap();
    let persisted = server.persist(&batch);
    assert_eq!(server.runtime.state.stateids.len(), 1);
    assert!(!server.runtime.is_open_pin_active(file, pin));
    let again = server.begin_open(&open_owner, 1, READ, NONE, false, 0x3b);
    assert_eq!(refused(again).0, NfsStatus::Delay);

    assert!(server.runtime.can_finish_open(&plan));
    let state_id = opened(&server.runtime.finish_open(plan, persisted).ok().unwrap().result);
    assert_eq!(server.runtime.state.stateids.len(), 1);
    assert_eq!(server.runtime.state.reserved_states, 0);
    let link = server.runtime.state.open_by_owner_file.get(&owner_file_key(&open_owner, file)).unwrap();
    assert_eq!(link.state_id, state_id);
    assert!(server.runtime.is_open_pin_active(file, pin));
    let state = server.runtime.files.get(file).unwrap();
    assert!(state.pending_opens.is_empty());
    assert_eq!(state.shares.len(), 1);
    match server.begin_open(&open_owner, 1, READ, NONE, false, 0x3b) {
        OpenDecision::Replay { result, .. } => assert_eq!(opened(&result), state_id),
        _ => panic!("the answer was not repeated"),
    }
}

#[test]
fn cancelled_open_error_caller_drains_ambiguous_owner_replay_commit() {
    let mut server = Server::new(config());
    let client_id = server.confirmed_client(b"error-cancel-client", [0x3c; 8]);
    let open_owner = owner(client_id, b"error-cancel-owner");
    let reservation = server.opening(&open_owner, 1, READ, false, 0x3d);
    let plan = match server.runtime.complete_open_error(reservation, NfsStatus::Access) {
        OwnerErrorStep::Record(plan) => plan,
        OwnerErrorStep::Done(_) => panic!("the refusal is not kept"),
    };
    let batch = plan.batch(&b"reply".to_vec());
    let recorded = server.persist(&batch);
    let again = server.begin_open(&open_owner, 1, READ, NONE, false, 0x3d);
    assert_eq!(refused(again).0, NfsStatus::Delay);

    server.runtime.finish_owner_error(plan, recorded);
    assert_eq!(server.runtime.state.reserved_states, 0);
    match server.begin_open(&open_owner, 1, READ, NONE, false, 0x3d) {
        OpenDecision::Replay { result, .. } => assert_eq!(*result, ResOp::Open(Err(NfsStatus::Access))),
        _ => panic!("the answer was not repeated"),
    }
}

#[test]
fn cancelled_close_caller_drains_ambiguous_persistence_into_release_outbox() {
    let mut server = Server::new(config());
    let client_id = server.confirmed_client(b"close-cancel-client", [0x41; 8]);
    let file = test_file(975);
    let state_id = server.open_and_confirm(&owner(client_id, b"close-cancel-owner"), file, READ);
    let reservation = server.changing(state_id, file, 3, 0x42, false);
    let pin = reservation.pin;
    let prepared = server.runtime.prepare_close(reservation).ok().unwrap();
    let plan = server.runtime.close_open(prepared).ok().unwrap();
    let batch = plan.batch(&b"reply".to_vec());
    let persisted = server.persist(&batch);
    assert!(server.runtime.is_open_pin_active(file, pin));
    assert!(server.runtime.pending_pin_releases().is_empty());

    assert!(server.runtime.can_finish_close(&plan));
    server.runtime.finish_close(plan, persisted).unwrap();
    assert!(!server.runtime.is_open_pin_active(file, pin));
    let releases = server.runtime.pending_pin_releases();
    assert_eq!(releases.len(), 1);
    assert_eq!(releases[0].open, ReleasedOpen { client_id, file, pin });
    match server.begin_state(state_id, file, 3, 0x42, false) {
        OpenStateDecision::Replay { result, .. } => assert!(matches!(*result, ResOp::Close(Ok(_)))),
        _ => panic!("the answer was not repeated"),
    }
}

#[test]
fn setclientid_confirm_delays_while_critical_close_is_ambiguous() {
    let mut server = Server::new(config());
    let client_id = server.confirmed_client(b"confirm-close-client", [0x43; 8]);
    let file = test_file(976);
    let state_id = server.open_and_confirm(&owner(client_id, b"confirm-close-owner"), file, READ);
    let args = set_client(b"confirm-close-client", [0x44; 8], b"127.0.0.1.8.1");
    let (replacement, confirmation) = server.registered(&args, &Arc::new(Principal::Anonymous));

    let reservation = server.changing(state_id, file, 3, 0x45, false);
    let prepared = server.runtime.prepare_close(reservation).ok().unwrap();
    let plan = server.runtime.close_open(prepared).ok().unwrap();
    let batch = plan.batch(&b"reply".to_vec());
    let persisted = server.persist(&batch);
    assert_eq!(server.confirm_client(replacement, confirmation, &Principal::Anonymous), NfsStatus::Delay);
    let pin = server.open_pin(state_id);
    assert!(server.runtime.is_open_pin_active(file, pin));

    assert!(server.runtime.can_finish_close(&plan));
    server.runtime.finish_close(plan, persisted).unwrap();
    assert_eq!(server.confirm_client(replacement, confirmation, &Principal::Anonymous), NfsStatus::Success);
    assert_eq!(server.runtime.pending_pin_releases().len(), 1);
}
