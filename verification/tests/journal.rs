//! The journal over a store that keeps what it is given, fails when told to, and fences writers.

use std::cell::RefCell;
use std::collections::HashMap;
use std::rc::Rc;

use nfsembed::codec::{ExportId, StableObject};
use nfsembed::commit::{CommitVerdict, StableMutation};
use nfsembed::error::{StableJournalError, StableStateError};
use nfsembed::journal::migration::{
    recovery_from_migration_capsule, CommitStep, CommittedMigration, MigrationStageStatus, StageStep,
};
use nfsembed::journal::{
    put_mutation, CommitPlan, JournalMutation, PersistBatch, Persisted, PlanKind, PreviousShutdown, StableJournal,
};
use nfsembed::limits::StableJournalLimits;
use nfsembed::record::{
    stable_kind_code, BootRecord, ClientRecord, DelegationRecord, HandleKeyRecord, JournalKey, JournalRecord,
    LockRangeRecord, LockRecord, MigrationCapsuleRecord, MigrationPhase, OpenContributionRecord, OpenRecord,
    RevocationReason, RevocationRecord, ServerIdentityRecord, StableKey, StableRecord,
};
use nfsembed::snapshot::{decode_snapshot, stable_record_from_typed, StableSnapshot};
use nfsembed::wire::{decode_transfer_records, MigrationStableSnapshot};

#[derive(Default)]
struct Scope {
    generation: u64,
    records: HashMap<(u8, Vec<u8>), StableRecord>,
    next_fence: u64,
    checkpoints: usize,
    fail_next_commit: bool,
    fail_next_commit_after_apply: bool,
    fail_next_delete_commit_after_apply: bool,
    unexpected_record_after_apply: Option<StableRecord>,
    committed_batches: Vec<Vec<StableKey>>,
}

#[derive(Clone, Default)]
struct FakeStore {
    inner: Rc<RefCell<Scope>>,
}

struct FakeSession {
    inner: Rc<RefCell<Scope>>,
    fence: u64,
}

impl FakeStore {
    fn open(&self) -> FakeSession {
        let mut scope = self.inner.borrow_mut();
        scope.next_fence += 1;
        FakeSession { inner: Rc::clone(&self.inner), fence: scope.next_fence }
    }

    fn advance_generation(&self) -> u64 {
        let mut scope = self.inner.borrow_mut();
        scope.generation += 1;
        scope.generation
    }
}

fn place(key: &StableKey) -> (u8, Vec<u8>) {
    (stable_kind_code(key.kind), key.key.clone())
}

impl FakeSession {
    fn fence_token(&self) -> Vec<u8> {
        self.fence.to_be_bytes().to_vec()
    }

    fn ensure_active(&self) -> Result<(), StableStateError> {
        if self.inner.borrow().next_fence == self.fence {
            Ok(())
        } else {
            Err(StableStateError::Fenced)
        }
    }

    fn recover(&self) -> Result<StableSnapshot, StableStateError> {
        self.ensure_active()?;
        let scope = self.inner.borrow();
        let mut records = scope.records.values().cloned().collect::<Vec<_>>();
        records.sort_by(|left, right| left.key.key.cmp(&right.key.key));
        Ok(StableSnapshot { fence_token: self.fence_token(), generation: scope.generation, records })
    }

    fn commit(&self, expected: u64, mutations: &[StableMutation]) -> Result<u64, StableStateError> {
        self.ensure_active()?;
        let mut scope = self.inner.borrow_mut();
        if std::mem::take(&mut scope.fail_next_commit) {
            return Err(StableStateError::Other("injected commit failure".into()));
        }
        if scope.generation != expected {
            return Err(StableStateError::GenerationConflict { expected, actual: scope.generation });
        }
        let deletes_only = mutations.iter().all(|mutation| matches!(mutation, StableMutation::Delete { .. }));
        let fail_delete = scope.fail_next_delete_commit_after_apply && deletes_only;
        if fail_delete {
            scope.fail_next_delete_commit_after_apply = false;
        }
        let fail = std::mem::take(&mut scope.fail_next_commit_after_apply) || fail_delete;
        let unexpected = scope.unexpected_record_after_apply.take();
        let ambiguous = fail || unexpected.is_some();
        let mut keys = Vec::new();
        for mutation in mutations {
            match mutation {
                StableMutation::Put { key, payload } => {
                    keys.push(key.clone());
                    scope
                        .records
                        .insert(place(key), StableRecord { key: key.clone(), payload: payload.clone() });
                },
                StableMutation::Delete { key } => {
                    keys.push(key.clone());
                    scope.records.remove(&place(key));
                },
            }
        }
        scope.committed_batches.push(keys);
        if let Some(record) = unexpected {
            scope.records.insert(place(&record.key), record);
        }
        scope.generation += 1;
        if ambiguous {
            Err(StableStateError::Other("injected ambiguous commit failure".into()))
        } else {
            Ok(scope.generation)
        }
    }

    fn checkpoint(&self, expected: u64) -> Result<u64, StableStateError> {
        self.ensure_active()?;
        let mut scope = self.inner.borrow_mut();
        if scope.generation != expected {
            return Err(StableStateError::GenerationConflict { expected, actual: scope.generation });
        }
        scope.generation += 1;
        scope.checkpoints += 1;
        Ok(scope.generation)
    }

    fn run(&self, plan: &CommitPlan) -> Result<u64, StableStateError> {
        match plan.kind {
            PlanKind::Commit => self.commit(plan.expected_generation, &plan.mutations),
            PlanKind::Checkpoint => self.checkpoint(plan.expected_generation),
        }
    }
}

struct Live {
    session: FakeSession,
    journal: StableJournal,
}

impl Live {
    fn initialize(store: &FakeStore, started_at: i64, limits: StableJournalLimits) -> Result<Live, StableJournalError> {
        let session = store.open();
        let fence = session.fence_token();
        let snapshot = session.recover().map_err(StableJournalError::Storage)?;
        let startup = StableJournal::initialize(&fence, snapshot, started_at, limits)?;
        let result = session.run(startup.plan());
        let generation = match startup.settle(&fence, result) {
            CommitVerdict::Settled(settled) => settled?,
            CommitVerdict::Recover(error) => startup.settle_recovered(error, session.recover())?,
        };
        let mut startup = startup.finish_boot(generation)?;
        while let Some(plan) = startup.next_cleanup()? {
            let result = session.run(&plan);
            let generation = match startup.settle_cleanup(&plan, &fence, result) {
                CommitVerdict::Settled(settled) => settled?,
                CommitVerdict::Recover(error) => startup.settle_cleanup_recovered(&plan, error, session.recover())?,
            };
            startup.finish_cleanup(plan, generation);
        }
        Ok(Live { session, journal: startup.into_journal() })
    }

    fn carry_out(&mut self, plan: CommitPlan) -> Result<Persisted, StableJournalError> {
        let fence = self.session.fence_token();
        let result = self.session.run(&plan);
        let generation = match self.journal.settle(&plan, &fence, result) {
            CommitVerdict::Settled(settled) => settled?,
            CommitVerdict::Recover(error) => self.journal.settle_recovered(&plan, error, self.session.recover())?,
        };
        Ok(self.journal.finish(plan, generation))
    }

    fn persist(&mut self, batch: PersistBatch) -> Result<Persisted, StableJournalError> {
        let plan = self.journal.persist_before_ack(&self.session.fence_token(), batch)?;
        self.carry_out(plan)
    }

    fn checkpoint(&mut self) -> Result<Persisted, StableJournalError> {
        let plan = self.journal.checkpoint(&self.session.fence_token())?;
        self.carry_out(plan)
    }

    fn mark_clean_shutdown(&mut self) -> Result<Persisted, StableJournalError> {
        let plan = self.journal.mark_clean_shutdown(&self.session.fence_token())?;
        self.carry_out(plan)
    }

    fn snapshot_for_migration(&self, export_id: ExportId) -> Result<MigrationStableSnapshot, StableJournalError> {
        let snapshot = self.session.recover().map_err(StableJournalError::Storage)?;
        self.journal.snapshot_for_migration(&self.session.fence_token(), &snapshot, export_id)
    }

    fn stage(&mut self, capsule: MigrationCapsuleRecord) -> Result<MigrationStageStatus, StableJournalError> {
        let fence = self.session.fence_token();
        match self.journal.stage_migration_import(&fence, capsule)? {
            StageStep::Known(status) => Ok(status),
            StageStep::Fresh(capsule) => {
                let snapshot = self.session.recover().map_err(StableJournalError::Storage)?;
                let plan = self.journal.stage_fresh(&fence, &snapshot, capsule)?;
                self.carry_out(plan)?;
                Ok(MigrationStageStatus::Staged)
            },
        }
    }

    fn commit_import(&mut self, transfer_id: [u8; 16]) -> Result<CommittedMigration, StableJournalError> {
        let fence = self.session.fence_token();
        match self.journal.commit_migration_import(&fence, transfer_id)? {
            CommitStep::Known(committed) => Ok(committed),
            CommitStep::Staged(staged, committed) => {
                let snapshot = self.session.recover().map_err(StableJournalError::Storage)?;
                let plan = self.journal.commit_staged(&fence, &snapshot, &staged)?;
                self.carry_out(plan)?;
                Ok(committed)
            },
        }
    }

    fn abort_import(&mut self, transfer_id: [u8; 16]) -> Result<Persisted, StableJournalError> {
        let plan = self.journal.abort_migration_import(&self.session.fence_token(), transfer_id)?;
        self.carry_out(plan)
    }
}

fn test_object() -> StableObject {
    StableObject { export_id: ExportId(7), file_id: 41, generation: 3 }
}

fn client_entry(client_id: u64) -> (JournalKey, JournalRecord) {
    client_entry_with_identity(client_id, b"client-owner", [4; 8], b"nfs/client@example.test", true)
}

fn client_entry_with_identity(
    client_id: u64,
    owner: &[u8],
    verifier: [u8; 8],
    canonical_principal: &[u8],
    confirmed: bool,
) -> (JournalKey, JournalRecord) {
    (
        JournalKey::Client { client_id },
        JournalRecord::Client(ClientRecord {
            client_id,
            owner: owner.to_vec(),
            verifier,
            canonical_principal: canonical_principal.to_vec(),
            confirmed,
        }),
    )
}

fn client_batch(client_id: u64) -> PersistBatch {
    let (key, record) = client_entry(client_id);
    PersistBatch::new(vec![JournalMutation::Put { key, record }])
}

fn put_all(records: Vec<(JournalKey, JournalRecord)>) -> PersistBatch {
    PersistBatch::new(
        records
            .into_iter()
            .map(|(key, record)| JournalMutation::Put { key, record })
            .collect(),
    )
}

fn test_state_token(sequence_id: u32, namespace: u32, object_id: u64) -> [u8; 16] {
    let mut token = [0; 16];
    token[..4].copy_from_slice(&sequence_id.to_be_bytes());
    token[4..8].copy_from_slice(&namespace.to_be_bytes());
    token[8..].copy_from_slice(&object_id.to_be_bytes());
    token
}

fn open_entry(state_token: [u8; 16], client_id: u64, object: StableObject) -> (JournalKey, JournalRecord) {
    (
        JournalKey::Open { state_token },
        JournalRecord::Open(OpenRecord {
            state_token,
            client_id,
            owner: b"open-owner".to_vec(),
            object,
            share_access: 1,
            share_deny: 0,
            contributions: vec![OpenContributionRecord { share_access: 1, share_deny: 0, count: 1 }],
        }),
    )
}

fn lock_entry(
    state_token: [u8; 16],
    open_state_token: [u8; 16],
    client_id: u64,
    object: StableObject,
) -> (JournalKey, JournalRecord) {
    (
        JournalKey::Lock { state_token },
        JournalRecord::Lock(LockRecord {
            state_token,
            open_state_token,
            client_id,
            owner: b"lock-owner".to_vec(),
            object,
            ranges: vec![LockRangeRecord { offset: 0, length: 1, write: false }],
        }),
    )
}

fn delegation_entry(
    state_token: [u8; 16],
    client_id: u64,
    object: StableObject,
    write: bool,
    persistent_object_id: &[u8],
) -> (JournalKey, JournalRecord) {
    (
        JournalKey::Delegation { state_token },
        JournalRecord::Delegation(DelegationRecord {
            state_token,
            client_id,
            object,
            write,
            requested_space: if write { 4096 } else { 0 },
            persistent_object_id: persistent_object_id.to_vec(),
        }),
    )
}

fn revocation_entry(state_token: [u8; 16], client_id: u64) -> (JournalKey, JournalRecord) {
    (
        JournalKey::Revocation { state_token },
        JournalRecord::Revocation(RevocationRecord {
            state_token,
            client_id,
            reason: RevocationReason::Conflict,
            revoked_at_unix_seconds: 18,
        }),
    )
}

fn test_migration_capsule(
    transfer_id: [u8; 16],
    records: Vec<(JournalKey, JournalRecord)>,
    limits: StableJournalLimits,
) -> MigrationCapsuleRecord {
    let mut records = records
        .iter()
        .map(|(key, record)| stable_record_from_typed(key, record, limits).unwrap())
        .collect::<Vec<_>>();
    records.sort_by_key(|record| place(&record.key));
    MigrationCapsuleRecord {
        transfer_id,
        export_id: test_object().export_id,
        fsid_major: 3,
        fsid_minor: 5,
        source_generation: 1,
        coordinator_generation: 11,
        coordinator_token_digest: [6; 32],
        bundle_digest: [7; 32],
        server_identity: ServerIdentityRecord { identity: [1; 16] },
        boot: BootRecord { verifier: [2; 8], boot_tag: 3, started_at_unix_seconds: 4, clean_shutdown: false },
        handle_key: HandleKeyRecord { instance_id: [5; 8], secret: [6; 32] },
        phase: MigrationPhase::Staged,
        records,
    }
}

#[test]
fn migration_stage_rejects_an_identity_collision_with_existing_state() {
    let limits = StableJournalLimits::default();
    let mut destination = Live::initialize(&FakeStore::default(), 100, limits).unwrap();
    let object = test_object();
    let existing_open = test_state_token(1, 0x1020_3040, 91);
    destination
        .persist(put_all(vec![client_entry(37), open_entry(existing_open, 37, object)]))
        .unwrap();

    let imported = test_state_token(9, 0x1020_3040, 91);
    let capsule = test_migration_capsule(
        [0x21; 16],
        vec![client_entry(38), delegation_entry(imported, 38, object, false, b"object-91")],
        limits,
    );

    assert_eq!(destination.stage(capsule).unwrap_err(), StableJournalError::MigrationConflict);
    assert_eq!(destination.abort_import([0x21; 16]).unwrap_err(), StableJournalError::MigrationNotFound);
}

#[test]
fn migration_projection_rejects_a_delegation_held_by_an_aliased_client_id() {
    let limits = StableJournalLimits::default();
    let mut destination = Live::initialize(&FakeStore::default(), 100, limits).unwrap();
    let object = test_object();
    let existing = test_state_token(1, 0x1020_3040, 141);
    destination
        .persist(put_all(vec![
            client_entry(37),
            delegation_entry(existing, 37, object, false, b"aliased-shared-object"),
        ]))
        .unwrap();

    let imported = test_state_token(1, 0x1020_3040, 142);
    let capsule = test_migration_capsule(
        [0x22; 16],
        vec![client_entry(38), delegation_entry(imported, 38, object, false, b"aliased-shared-object")],
        limits,
    );

    assert_eq!(destination.stage(capsule).unwrap_err(), StableJournalError::MigrationConflict);
}

#[test]
fn sequential_import_rejects_an_identity_committed_by_the_first_import() {
    let limits = StableJournalLimits::default();
    let mut destination = Live::initialize(&FakeStore::default(), 100, limits).unwrap();
    let object = test_object();
    let imported_open = test_state_token(1, 0x1020_3040, 101);
    let first = test_migration_capsule(
        [0x31; 16],
        vec![client_entry(37), open_entry(imported_open, 37, object)],
        limits,
    );
    assert_eq!(destination.stage(first).unwrap(), MigrationStageStatus::Staged);
    assert!(destination.commit_import([0x31; 16]).is_ok());

    let colliding = test_state_token(7, 0x1020_3040, 101);
    let second = test_migration_capsule(
        [0x32; 16],
        vec![client_entry(38), delegation_entry(colliding, 38, object, true, b"object-101")],
        limits,
    );

    assert_eq!(destination.stage(second).unwrap_err(), StableJournalError::MigrationConflict);
}

#[test]
fn migration_commit_revalidates_state_added_after_staging() {
    let limits = StableJournalLimits::default();
    let mut destination = Live::initialize(&FakeStore::default(), 100, limits).unwrap();
    let object = test_object();
    let imported = test_state_token(7, 0x1020_3040, 111);
    let capsule = test_migration_capsule(
        [0x41; 16],
        vec![client_entry(37), delegation_entry(imported, 37, object, false, b"object-111")],
        limits,
    );
    destination.stage(capsule).unwrap();

    let colliding_open = test_state_token(9, 0x1020_3040, 111);
    destination
        .persist(put_all(vec![client_entry(38), open_entry(colliding_open, 38, object)]))
        .unwrap();

    assert_eq!(
        destination.commit_import([0x41; 16]).err().unwrap(),
        StableJournalError::MigrationConflict
    );
    let snapshot = destination.session.recover().unwrap();
    let decoded = decode_snapshot(&snapshot.records, limits).ok().unwrap();
    assert!(!decoded
        .records
        .iter()
        .any(|(_, record)| matches!(record, JournalRecord::Delegation(_))));
}

fn assert_restart_rejected(records: Vec<(JournalKey, JournalRecord)>, expected: StableJournalError) {
    let limits = StableJournalLimits::default();
    let store = FakeStore::default();
    let live = Live::initialize(&store, 100, limits).unwrap();
    let capsule = test_migration_capsule([0x51; 16], records, limits);
    let key = JournalKey::Migration { export_id: capsule.export_id, transfer_id: capsule.transfer_id };
    let mutation = put_mutation(&key, &JournalRecord::Migration(capsule), limits).unwrap();
    live.session.commit(live.journal.generation(), &[mutation]).unwrap();

    assert_eq!(Live::initialize(&store, 200, limits).err().unwrap(), expected);
}

#[test]
fn restart_rejects_corrupt_staged_migration_capsules() {
    let object = test_object();
    let open_token = test_state_token(1, 0x1020_3040, 121);
    let duplicate = test_state_token(9, 0x1020_3040, 121);
    assert_restart_rejected(
        vec![
            client_entry(37),
            open_entry(open_token, 37, object),
            delegation_entry(duplicate, 37, object, false, b"object-121"),
        ],
        StableJournalError::Corrupt("duplicate stable state object identity"),
    );

    let missing_lock = test_state_token(1, 0x5060_7080, 122);
    assert_restart_rejected(
        vec![
            client_entry(37),
            lock_entry(missing_lock, test_state_token(1, 0x1020_3040, 122), 37, object),
        ],
        StableJournalError::Corrupt("stable lock is missing its open state"),
    );

    let mismatched_open = test_state_token(1, 0x1020_3040, 123);
    let mismatched_lock = test_state_token(1, 0x5060_7080, 123);
    assert_restart_rejected(
        vec![
            client_entry(37),
            client_entry(38),
            open_entry(mismatched_open, 37, object),
            lock_entry(mismatched_lock, mismatched_open, 38, object),
        ],
        StableJournalError::Corrupt("stable lock does not match its open state"),
    );
}

#[test]
fn persist_before_ack_reports_cas_conflicts_without_advancing_local_generation() {
    let store = FakeStore::default();
    let mut live = Live::initialize(&store, 1_700_000_000, StableJournalLimits::default()).unwrap();
    let expected = live.journal.generation();
    let actual = store.advance_generation();

    let error = live.persist(client_batch(17)).unwrap_err();

    assert_eq!(error, StableJournalError::CasConflict { expected, actual });
    assert_eq!(live.journal.generation(), expected);
}

#[test]
fn persist_before_ack_reconciles_an_exact_batch_applied_before_an_error() {
    let store = FakeStore::default();
    let limits = StableJournalLimits { max_records: 5, ..StableJournalLimits::default() };
    let mut live = Live::initialize(&store, 1_700_000_000, limits).unwrap();
    let expected = live.journal.generation();
    store.inner.borrow_mut().fail_next_commit_after_apply = true;

    let persisted = live.persist(client_batch(17)).unwrap();

    assert_eq!(persisted.generation, expected + 1);
    assert_eq!(live.journal.generation(), expected + 1);
    assert_eq!(
        live.persist(client_batch(23)).unwrap_err(),
        StableJournalError::LimitExceeded("stable record count")
    );

    live.persist(PersistBatch::new(vec![JournalMutation::Delete { key: client_entry(17).0 }]))
        .unwrap();
    live.persist(client_batch(23)).unwrap();
}

#[test]
fn persist_before_ack_preserves_unchanged_state_after_a_preapply_error() {
    let store = FakeStore::default();
    let mut live = Live::initialize(&store, 1_700_000_000, StableJournalLimits::default()).unwrap();
    let expected = live.journal.generation();
    store.inner.borrow_mut().fail_next_commit = true;

    assert_eq!(
        live.persist(client_batch(17)).unwrap_err(),
        StableJournalError::Storage(StableStateError::Other("injected commit failure".into()))
    );
    assert_eq!(live.journal.generation(), expected);

    let persisted = live.persist(client_batch(17)).unwrap();
    assert_eq!(persisted.generation, expected + 1);
}

#[test]
fn persist_before_ack_rejects_an_unexpected_state_after_an_ambiguous_error() {
    let store = FakeStore::default();
    let limits = StableJournalLimits::default();
    let mut live = Live::initialize(&store, 1_700_000_000, limits).unwrap();
    let expected = live.journal.generation();
    let (key, record) = client_entry(19);
    store.inner.borrow_mut().unexpected_record_after_apply =
        Some(stable_record_from_typed(&key, &record, limits).unwrap());

    let error = live.persist(client_batch(17)).unwrap_err();

    assert_eq!(error, StableJournalError::CasConflict { expected, actual: expected + 1 });
    assert_eq!(live.journal.generation(), expected);
}

#[test]
fn persist_before_ack_enforces_the_live_record_limit() {
    let limits = StableJournalLimits { max_records: 5, ..StableJournalLimits::default() };
    let mut live = Live::initialize(&FakeStore::default(), 1_700_000_000, limits).unwrap();
    live.persist(client_batch(17)).unwrap();
    let generation_at_limit = live.journal.generation();

    assert_eq!(
        live.persist(client_batch(23)).unwrap_err(),
        StableJournalError::LimitExceeded("stable record count")
    );
    assert_eq!(live.journal.generation(), generation_at_limit);

    live.persist(client_batch(17)).unwrap();
    live.persist(PersistBatch::new(vec![JournalMutation::Delete { key: client_entry(17).0 }]))
        .unwrap();
    live.persist(client_batch(23)).unwrap();
}

#[test]
fn a_new_scope_session_fences_the_previous_writer() {
    let store = FakeStore::default();
    let mut first = Live::initialize(&store, 1_700_000_000, StableJournalLimits::default()).unwrap();
    let generation = first.journal.generation();
    let _replacement = store.open();

    assert_eq!(first.persist(client_batch(23)).unwrap_err(), StableJournalError::Fenced);
    assert_eq!(first.journal.generation(), generation);
}

#[test]
fn recovery_distinguishes_unclean_and_clean_shutdowns_and_restores_records() {
    let store = FakeStore::default();
    let limits = StableJournalLimits::default();
    let mut first = Live::initialize(&store, 100, limits).unwrap();
    assert_eq!(first.journal.recovery().previous_shutdown, PreviousShutdown::FirstBoot);
    first.persist(client_batch(29)).unwrap();
    let first_boot = first.journal.boot();
    drop(first);

    let mut after_crash = Live::initialize(&store, 200, limits).unwrap();
    assert_eq!(after_crash.journal.recovery().previous_shutdown, PreviousShutdown::Unclean);
    assert_eq!(after_crash.journal.recovery().previous_boot, Some(first_boot));
    assert!(after_crash.journal.recovery().records == vec![client_entry(29)]);
    assert!(!after_crash.journal.boot().clean_shutdown);
    let clean_boot = after_crash.journal.boot();
    after_crash.mark_clean_shutdown().unwrap();
    assert!(after_crash.journal.boot().clean_shutdown);
    drop(after_crash);

    let after_clean = Live::initialize(&store, 300, limits).unwrap();
    assert_eq!(after_clean.journal.recovery().previous_shutdown, PreviousShutdown::Clean);
    assert_eq!(
        after_clean.journal.recovery().previous_boot,
        Some(BootRecord { clean_shutdown: true, ..clean_boot })
    );
    assert!(after_clean.journal.recovery().records == vec![client_entry(29)]);
}

#[test]
fn initialize_sanitizes_legacy_delegations_in_bounded_deterministic_chunks() {
    let store = FakeStore::default();
    let default_limits = StableJournalLimits::default();
    let mut first = Live::initialize(&store, 100, default_limits).unwrap();
    let object = test_object();
    let revoked_a = test_state_token(1, 0x1020_3040, 201);
    let revoked_b = test_state_token(1, 0x1020_3040, 202);
    let revocation_only = test_state_token(1, 0x1020_3040, 203);
    let orphan = test_state_token(1, 0x1020_3040, 204);
    let unconfirmed = test_state_token(1, 0x1020_3040, 205);
    let retained = test_state_token(1, 0x1020_3040, 206);
    let unconfirmed_client =
        client_entry_with_identity(38, b"unconfirmed-owner", [8; 8], b"nfs/unconfirmed@example.test", false);
    first
        .persist(put_all(vec![
            client_entry(37),
            unconfirmed_client,
            delegation_entry(revoked_a, 37, object, false, b"revoked-object-a"),
            delegation_entry(revoked_b, 37, object, false, b"revoked-object-b"),
            delegation_entry(orphan, 99, object, false, b"orphan-object"),
            delegation_entry(unconfirmed, 38, object, false, b"unconfirmed-object"),
            delegation_entry(retained, 37, object, false, b"retained-object"),
            revocation_entry(revoked_a, 37),
            revocation_entry(revoked_b, 37),
            revocation_entry(revocation_only, 37),
        ]))
        .unwrap();
    let generation_before_restart = first.journal.generation();
    let batch_count_before_restart = store.inner.borrow().committed_batches.len();
    store.inner.borrow_mut().fail_next_delete_commit_after_apply = true;
    drop(first);

    let cleanup_limits = StableJournalLimits { max_batch_mutations: 2, ..default_limits };
    let recovered = Live::initialize(&store, 200, cleanup_limits).unwrap();

    assert_eq!(recovered.journal.generation(), generation_before_restart + 5);
    let committed_batches = store.inner.borrow().committed_batches.clone();
    let restart_batches = &committed_batches[batch_count_before_restart..];
    assert_eq!(
        restart_batches.iter().map(Vec::len).collect::<Vec<_>>(),
        vec![1, 2, 2, 2, 1]
    );

    let mut expected_cleanup = vec![
        JournalKey::Revocation { state_token: revoked_a },
        JournalKey::Revocation { state_token: revoked_b },
        JournalKey::Revocation { state_token: revocation_only },
        JournalKey::Delegation { state_token: revoked_a },
        JournalKey::Delegation { state_token: revoked_b },
        JournalKey::Delegation { state_token: orphan },
        JournalKey::Delegation { state_token: unconfirmed },
    ]
    .into_iter()
    .map(|key| key.encode(cleanup_limits).unwrap())
    .collect::<Vec<_>>();
    expected_cleanup.sort_by_key(place);
    let actual_cleanup = restart_batches[1..].iter().flatten().cloned().collect::<Vec<_>>();
    assert_eq!(actual_cleanup, expected_cleanup);

    let records = &recovered.journal.recovery().records;
    assert!(records.iter().all(|(_, record)| !matches!(record, JournalRecord::Revocation(_))));
    let recovered_delegations = records
        .iter()
        .filter_map(|(_, record)| match record {
            JournalRecord::Delegation(delegation) => Some(delegation.state_token),
            _ => None,
        })
        .collect::<Vec<_>>();
    assert_eq!(recovered_delegations, vec![retained]);

    let durable = recovered.session.recover().unwrap();
    assert!(expected_cleanup
        .iter()
        .all(|removed| durable.records.iter().all(|record| record.key != *removed)));
}

#[test]
fn stable_handle_keys_survive_recovery_and_checkpoint_is_fenced_cas() {
    let store = FakeStore::default();
    let limits = StableJournalLimits::default();
    let mut first = Live::initialize(&store, 100, limits).unwrap();
    let server_identity = first.journal.server_identity();
    let handle_key = first.journal.handle_key();
    let original_boot = first.journal.boot();
    first.mark_clean_shutdown().unwrap();
    drop(first);

    let mut recovered = Live::initialize(&store, 200, limits).unwrap();
    assert_eq!(recovered.journal.server_identity(), server_identity);
    assert!(recovered.journal.handle_key() == handle_key);
    assert_ne!(recovered.journal.boot().verifier, original_boot.verifier);
    assert_ne!(recovered.journal.boot().boot_tag, original_boot.boot_tag);

    let before_checkpoint = recovered.journal.generation();
    let checkpoint = recovered.checkpoint().unwrap();
    assert_eq!(checkpoint.generation, before_checkpoint + 1);
    assert_eq!(store.inner.borrow().checkpoints, 1);
}

#[test]
fn migration_stage_is_invisible_until_atomic_commit_and_recovers_handle_identity() {
    let limits = StableJournalLimits::default();
    let mut source = Live::initialize(&FakeStore::default(), 100, limits).unwrap();
    let source_identity = source.journal.server_identity();
    let source_handle_key = source.journal.handle_key();
    let object = test_object();
    source
        .persist(
            PersistBatch::new(Vec::new()).put(client_entry(29).0, client_entry(29).1).put(
                JournalKey::Open { state_token: [5; 16] },
                JournalRecord::Open(OpenRecord {
                    state_token: [5; 16],
                    client_id: 29,
                    owner: b"open-owner".to_vec(),
                    object,
                    share_access: 3,
                    share_deny: 0,
                    contributions: vec![
                        OpenContributionRecord { share_access: 1, share_deny: 0, count: 2 },
                        OpenContributionRecord { share_access: 2, share_deny: 0, count: 1 },
                    ],
                }),
            ),
        )
        .unwrap();
    let snapshot = source.snapshot_for_migration(ExportId(7)).ok().unwrap();
    assert_eq!(snapshot.records.len(), 2);

    let transfer_id = [9; 16];
    let capsule = MigrationCapsuleRecord {
        transfer_id,
        export_id: ExportId(7),
        fsid_major: 3,
        fsid_minor: 5,
        source_generation: snapshot.source_generation,
        coordinator_generation: 11,
        coordinator_token_digest: [6; 32],
        bundle_digest: [7; 32],
        server_identity: snapshot.server_identity,
        boot: snapshot.boot,
        handle_key: snapshot.handle_key,
        phase: MigrationPhase::Staged,
        records: snapshot.records,
    };

    let destination_store = FakeStore::default();
    let mut destination = Live::initialize(&destination_store, 200, limits).unwrap();
    assert_eq!(destination.stage(capsule.clone()).unwrap(), MigrationStageStatus::Staged);
    assert_eq!(destination.stage(capsule.clone()).unwrap(), MigrationStageStatus::AlreadyStaged);
    drop(destination);

    let mut after_staging = Live::initialize(&destination_store, 300, limits).unwrap();
    assert!(after_staging.journal.recovery().records.is_empty());
    assert!(after_staging.journal.imported_handle_keys().is_empty());

    let committed = after_staging.commit_import(transfer_id).ok().unwrap();
    assert_eq!(committed.export_id, ExportId(7));
    assert_eq!(committed.records.len(), 2);
    assert_eq!(after_staging.stage(capsule).unwrap(), MigrationStageStatus::AlreadyCommitted);
    assert_eq!(
        after_staging.abort_import(transfer_id).unwrap_err(),
        StableJournalError::MigrationCommitted
    );
    drop(after_staging);

    let recovered = Live::initialize(&destination_store, 400, limits).unwrap();
    assert_eq!(recovered.journal.recovery().records.len(), 2);
    let imported = recovered.journal.imported_handle_keys();
    assert_eq!(imported.len(), 1);
    assert_eq!(imported[0].server_identity, source_identity.identity);
    assert!(imported[0].handle_key == source_handle_key);
}

#[test]
fn migration_snapshot_omits_revocations_and_their_shadowed_delegations() {
    let limits = StableJournalLimits::default();
    let mut source = Live::initialize(&FakeStore::default(), 100, limits).unwrap();
    let object = test_object();
    let retained = test_state_token(1, 0x1020_3040, 301);
    let revoked = test_state_token(1, 0x1020_3040, 302);
    source
        .persist(put_all(vec![
            client_entry(37),
            delegation_entry(retained, 37, object, false, b"migration-retained-object"),
            delegation_entry(revoked, 37, object, false, b"migration-revoked-object"),
            revocation_entry(revoked, 37),
        ]))
        .unwrap();

    let snapshot = source.snapshot_for_migration(object.export_id).ok().unwrap();
    let typed = decode_transfer_records(&snapshot.records, limits).ok().unwrap();
    assert_eq!(typed.len(), 2);
    assert!(typed
        .iter()
        .any(|(_, record)| matches!(record, JournalRecord::Client(client) if client.client_id == 37)));
    assert!(typed
        .iter()
        .any(|(_, record)| matches!(record, JournalRecord::Delegation(d) if d.state_token == retained)));
    assert!(typed.iter().all(|(_, record)| {
        !matches!(record, JournalRecord::Revocation(_))
            && !matches!(record, JournalRecord::Delegation(d) if d.state_token == revoked)
    }));
}

#[test]
fn legacy_migration_capsule_is_sanitized_before_limits_materialization_and_return() {
    let compatibility_limits =
        StableJournalLimits { max_records: 8, max_batch_mutations: 4, ..StableJournalLimits::default() };
    let object = test_object();
    let retained = test_state_token(1, 0x1020_3040, 311);
    let revoked = test_state_token(1, 0x1020_3040, 312);
    let orphan = test_state_token(1, 0x1020_3040, 313);
    let unconfirmed = test_state_token(1, 0x1020_3040, 314);
    let capsule = test_migration_capsule(
        [0x61; 16],
        vec![
            client_entry(37),
            client_entry_with_identity(
                38,
                b"unconfirmed-import-owner",
                [8; 8],
                b"nfs/unconfirmed-import@example.test",
                false,
            ),
            delegation_entry(retained, 37, object, false, b"import-retained-object"),
            delegation_entry(revoked, 37, object, false, b"import-revoked-object"),
            delegation_entry(orphan, 99, object, false, b"import-orphan-object"),
            delegation_entry(unconfirmed, 38, object, false, b"import-unconfirmed-object"),
            revocation_entry(revoked, 37),
        ],
        compatibility_limits,
    );

    let encoded = JournalRecord::Migration(capsule.clone()).encode(compatibility_limits).unwrap();
    let decoded = match JournalRecord::decode(&encoded, compatibility_limits) {
        Ok(JournalRecord::Migration(capsule)) => capsule,
        _ => panic!("migration payload decoded as the wrong record kind"),
    };
    assert_eq!(decoded.records.len(), 3);
    let recovered = recovery_from_migration_capsule(&capsule, compatibility_limits).ok().unwrap();
    assert_eq!(recovered.records.len(), 3);
    let obsolete = |record: &JournalRecord| {
        matches!(record, JournalRecord::Revocation(_))
            || matches!(record, JournalRecord::Delegation(d) if [revoked, orphan, unconfirmed].contains(&d.state_token))
    };
    assert!(!recovered.records.iter().any(|(_, record)| obsolete(record)));

    let store = FakeStore::default();
    let mut destination = Live::initialize(&store, 100, compatibility_limits).unwrap();
    assert_eq!(destination.stage(capsule.clone()).unwrap(), MigrationStageStatus::Staged);
    let committed = destination.commit_import(capsule.transfer_id).ok().unwrap();
    assert!(committed.records == recovered.records);
    drop(destination);

    let restarted = Live::initialize(&store, 200, compatibility_limits).unwrap();
    assert!(restarted.journal.recovery().records == recovered.records);
}

#[test]
fn migration_import_rejects_conflicting_canonical_state_without_overwrite() {
    let limits = StableJournalLimits::default();
    let mut destination = Live::initialize(&FakeStore::default(), 100, limits).unwrap();
    destination.persist(client_batch(29)).unwrap();

    let conflicting = JournalRecord::Client(ClientRecord {
        client_id: 29,
        owner: b"different-owner".to_vec(),
        verifier: [8; 8],
        canonical_principal: b"nfs/other@example.test".to_vec(),
        confirmed: true,
    });
    let capsule = MigrationCapsuleRecord {
        transfer_id: [9; 16],
        export_id: ExportId(7),
        fsid_major: 3,
        fsid_minor: 5,
        source_generation: 4,
        coordinator_generation: 11,
        coordinator_token_digest: [6; 32],
        bundle_digest: [7; 32],
        server_identity: ServerIdentityRecord { identity: [2; 16] },
        boot: BootRecord { verifier: [3; 8], boot_tag: 8, started_at_unix_seconds: 1, clean_shutdown: false },
        handle_key: HandleKeyRecord { instance_id: [4; 8], secret: [5; 32] },
        phase: MigrationPhase::Staged,
        records: vec![
            stable_record_from_typed(&JournalKey::Client { client_id: 29 }, &conflicting, limits).unwrap(),
        ],
    };

    assert_eq!(destination.stage(capsule).unwrap_err(), StableJournalError::MigrationConflict);
    assert!(destination.journal.imported_handle_keys().is_empty());
}

#[test]
fn an_aborted_import_can_be_staged_again() {
    let limits = StableJournalLimits::default();
    let mut destination = Live::initialize(&FakeStore::default(), 100, limits).unwrap();
    let capsule = test_migration_capsule([0x71; 16], vec![client_entry(37)], limits);
    destination.stage(capsule.clone()).unwrap();
    destination.abort_import([0x71; 16]).unwrap();
    assert_eq!(
        destination.commit_import([0x71; 16]).err().unwrap(),
        StableJournalError::MigrationNotFound
    );
    assert_eq!(destination.stage(capsule).unwrap(), MigrationStageStatus::Staged);
}

#[test]
fn a_source_that_has_moved_stays_moved() {
    let limits = StableJournalLimits::default();
    let store = FakeStore::default();
    let mut source = Live::initialize(&store, 100, limits).unwrap();
    let capsule = test_migration_capsule([0x72; 16], vec![client_entry(37)], limits);
    let fence = source.session.fence_token();
    let moved = MigrationCapsuleRecord { phase: MigrationPhase::SourceMoved, ..capsule.clone() };
    assert_eq!(
        source.journal.arm_source_cutover(&fence, moved).err().unwrap(),
        StableJournalError::InvalidMigration("source cutover requires a staged capsule")
    );
    assert_eq!(source.journal.source_cutover_armed(&fence, &capsule), Ok(false));
    let plan = source.journal.arm_source_cutover(&fence, capsule.clone()).ok().unwrap().unwrap();
    source.carry_out(plan).unwrap();
    assert_eq!(source.journal.source_cutover_armed(&fence, &capsule), Ok(true));
    assert!(matches!(source.journal.arm_source_cutover(&fence, capsule.clone()), Ok(None)));
    drop(source);

    let restarted = Live::initialize(&store, 200, limits).unwrap();
    assert_eq!(restarted.journal.source_moved_exports(), vec![ExportId(7)]);
}

#[test]
fn reserved_and_empty_batches_are_refused() {
    let mut live = Live::initialize(&FakeStore::default(), 1, StableJournalLimits::default()).unwrap();
    assert_eq!(
        live.persist(PersistBatch::default()).unwrap_err(),
        StableJournalError::EmptyBatch
    );
    assert_eq!(
        live.persist(PersistBatch::default().delete(JournalKey::Boot)).unwrap_err(),
        StableJournalError::ReservedRecord
    );
}

#[test]
fn every_run_draws_an_identity_of_its_own() {
    let limits = StableJournalLimits::default();
    let one = Live::initialize(&FakeStore::default(), 1, limits).unwrap();
    let two = Live::initialize(&FakeStore::default(), 1, limits).unwrap();
    assert_ne!(one.journal.server_identity(), two.journal.server_identity());
    assert!(one.journal.handle_key() != two.journal.handle_key());
    assert_ne!(one.journal.boot().boot_tag, 0);
    assert_ne!(one.journal.boot().boot_tag, u32::MAX);
}
