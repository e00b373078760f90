//! Moving an export between servers: staging, committing and aborting an import, and arming the source.

use vstd::prelude::*;

use crate::bytemap::strictly_sorted;
use crate::bytes::{array_equal, bytes_equal};
use crate::codec::ExportId;
use crate::commit::{mutation_views, MutationView, StableMutation};
use crate::error::StableJournalError;
use crate::journal::{
    planned, put_change, put_mutation, CommitPlan, JournalView, PlanEffect, PreviousShutdown, RecoveredStableState,
    RecoveredView, StableJournal,
};
use crate::layout::{checked, encode_key};
use crate::limits::StableJournalLimits;
use crate::record::{
    record_views, BootRecord, BootView, CapsuleView, HandleKeyRecord, HandleKeyView, JournalKey, JournalRecord, KeyView,
    MigrationCapsuleRecord, MigrationPhase, RecordView, StableRecordView,
};
use crate::snapshot::{
    capsules, decode_image, decode_snapshot, export_records, image_of, import_projection, payloads,
    select_export_records, validate_import_projection, StableSnapshot,
};
use crate::transfer::{capsule_valid, sanitize_transfer, snapshot_checked, typed_views, SnapshotView, TypedView};
use crate::wire::{
    decode_transfer_records, sanitize_capsule, sanitize_migration_capsule, validate_migration_capsule,
    validate_migration_snapshot, MigrationStableSnapshot,
};

verus! {

/// A handle key that came with a migration.
#[derive(Clone, PartialEq, Eq)]
pub struct ImportedHandleKey {
    pub export_id: ExportId,
    pub transfer_id: [u8; 16],
    pub server_identity: [u8; 16],
    pub handle_key: HandleKeyRecord,
}

/// What such a key stands for.
#[verifier::ext_equal]
pub struct ImportedKeyView {
    pub export_id: ExportId,
    pub transfer_id: Seq<u8>,
    pub server_identity: Seq<u8>,
    pub handle_key: HandleKeyView,
}

impl View for ImportedHandleKey {
    type V = ImportedKeyView;

    open spec fn view(&self) -> ImportedKeyView {
        ImportedKeyView {
            export_id: self.export_id,
            transfer_id: self.transfer_id@,
            server_identity: self.server_identity@,
            handle_key: self.handle_key@,
        }
    }
}

/// A migration that took effect.
#[derive(Clone, PartialEq, Eq)]
pub struct CommittedMigration {
    pub export_id: ExportId,
    pub transfer_id: [u8; 16],
    pub server_identity: [u8; 16],
    pub boot: BootRecord,
    pub handle_key: HandleKeyRecord,
    pub records: Vec<(JournalKey, JournalRecord)>,
}

/// What a migration that took effect stands for.
#[verifier::ext_equal]
pub struct CommittedView {
    pub export_id: ExportId,
    pub transfer_id: Seq<u8>,
    pub server_identity: Seq<u8>,
    pub boot: BootView,
    pub handle_key: HandleKeyView,
    pub records: Seq<TypedView>,
}

impl View for CommittedMigration {
    type V = CommittedView;

    open spec fn view(&self) -> CommittedView {
        CommittedView {
            export_id: self.export_id,
            transfer_id: self.transfer_id@,
            server_identity: self.server_identity@,
            boot: self.boot@,
            handle_key: self.handle_key@,
            records: typed_views(self.records@),
        }
    }
}

/// A staged capsule with its typed records, as the migration that takes effect.
pub open spec fn committed_migration(staged: CapsuleView, typed: Seq<TypedView>) -> CommittedView {
    CommittedView {
        export_id: staged.export_id,
        transfer_id: staged.transfer_id,
        server_identity: staged.server_identity,
        boot: staged.boot,
        handle_key: staged.handle_key,
        records: typed,
    }
}

/// How far an import had come when it was staged.
#[derive(Clone, Copy, Debug, PartialEq, Eq, Structural)]
pub enum MigrationStageStatus {
    Staged,
    AlreadyStaged,
    AlreadyCommitted,
}

/// The recovery image of a capsule. Migration is a live handoff, so the source's run counts as one that did
/// not end cleanly.
pub fn recovery_from_migration_capsule(capsule: &MigrationCapsuleRecord, limits: StableJournalLimits) -> (image: Result<
    RecoveredStableState,
    StableJournalError,
>)
    ensures
        match capsule_valid(capsule@, checked(capsule@.records, limits), limits) {
            Err(e) => image == Err::<RecoveredStableState, StableJournalError>(e),
            Ok(_) => match sanitize_transfer(capsule@.records, checked(capsule@.records, limits), limits) {
                Err(e) => image == Err::<RecoveredStableState, StableJournalError>(e),
                Ok((_, typed)) => image is Ok && image->Ok_0@ == (RecoveredView {
                    previous_shutdown: PreviousShutdown::Unclean,
                    previous_boot: Some(capsule@.boot),
                    records: typed,
                }),
            },
        },
{
    validate_migration_capsule(capsule, limits)?;
    let records = decode_transfer_records(&capsule.records, limits)?;
    Ok(
        RecoveredStableState {
            previous_shutdown: PreviousShutdown::Unclean,
            previous_boot: Some(capsule.boot),
            records,
        },
    )
}

/// Two capsules of the same transaction, whatever their phase and records.
pub open spec fn same_transaction(a: CapsuleView, b: CapsuleView) -> bool {
    &&& a.transfer_id == b.transfer_id
    &&& a.export_id == b.export_id
    &&& a.fsid_major == b.fsid_major
    &&& a.fsid_minor == b.fsid_minor
    &&& a.source_generation == b.source_generation
    &&& a.coordinator_generation == b.coordinator_generation
    &&& a.coordinator_token_digest == b.coordinator_token_digest
    &&& a.bundle_digest == b.bundle_digest
    &&& a.server_identity == b.server_identity
    &&& a.boot == b.boot
    &&& a.handle_key == b.handle_key
}

/// Whether two capsules are of the same transaction.
pub fn migration_identity_matches(left: &MigrationCapsuleRecord, right: &MigrationCapsuleRecord) -> (same: bool)
    ensures
        same == same_transaction(left@, right@),
{
    array_equal(&left.transfer_id, &right.transfer_id) && left.export_id == right.export_id && left.fsid_major
        == right.fsid_major && left.fsid_minor == right.fsid_minor && left.source_generation == right.source_generation
        && left.coordinator_generation == right.coordinator_generation && array_equal(
        &left.coordinator_token_digest,
        &right.coordinator_token_digest,
    ) && array_equal(&left.bundle_digest, &right.bundle_digest) && left.server_identity.same(&right.server_identity)
        && left.boot.same(&right.boot) && left.handle_key.same(&right.handle_key)
}

/// Whether two capsules are the same.
fn same_capsule(left: &MigrationCapsuleRecord, right: &MigrationCapsuleRecord) -> (same: bool)
    ensures
        same == (left@ == right@),
{
    if !migration_identity_matches(left, right) || left.phase != right.phase || left.records.len()
        != right.records.len() {
        assert(left@.records.len() == left.records@.len());
        assert(right@.records.len() == right.records@.len());
        return false;
    }
    let mut i: usize = 0;
    while i < left.records.len()
        invariant
            i <= left.records.len(),
            left.records.len() == right.records.len(),
            forall|j: int| 0 <= j < i ==> (#[trigger] left.records@[j])@ == right.records@[j]@,
        decreases left.records.len() - i,
    {
        if !left.records[i].key.same(&right.records[i].key) || !bytes_equal(
            left.records[i].payload.as_slice(),
            right.records[i].payload.as_slice(),
        ) {
            assert(left@.records[i as int] != right@.records[i as int]);
            return false;
        }
        i += 1;
    }
    assert(left@.records =~= right@.records);
    assert(left@ =~= right@);
    true
}


impl JournalView {
    /// A snapshot is of the current state of the store.
    pub open spec fn current_checked(self, session_fence: Seq<u8>, fence: Seq<u8>, generation: u64, count: nat) -> Result<
        (),
        StableJournalError,
    > {
        if session_fence != self.fence_token || fence != self.fence_token {
            Err(StableJournalError::Fenced)
        } else if generation != self.generation {
            Err(StableJournalError::CasConflict { expected: self.generation, actual: generation })
        } else if count > self.limits.max_records {
            Err(StableJournalError::LimitExceeded("stable record count"))
        } else {
            Ok(())
        }
    }

    /// A migration of that export in that phase is known.
    pub open spec fn has_migration(self, export_id: ExportId, phase: MigrationPhase) -> bool {
        exists|id: Seq<u8>| #[trigger]
            self.migrations.contains_key(id) && self.migrations[id].export_id == export_id && self.migrations[id].phase
                == phase
    }

    /// What is exported of one export from the store's current records.
    pub open spec fn migration_snapshot(
        self,
        session_fence: Seq<u8>,
        fence: Seq<u8>,
        generation: u64,
        records: Seq<StableRecordView>,
        export_id: ExportId,
    ) -> Result<SnapshotView, StableJournalError> {
        match self.current_checked(session_fence, fence, generation, records.len()) {
            Err(e) => Err(e),
            Ok(_) => match decode_image(records, self.limits) {
                Err(e) => Err(e),
                Ok(decoded) => match export_records(decoded.records, export_id, self.limits) {
                    Err(e) => Err(e),
                    Ok(selected) => {
                        let snapshot = SnapshotView {
                            source_generation: generation,
                            server_identity: self.server_identity,
                            boot: self.boot,
                            handle_key: self.handle_key,
                            records: selected,
                        };
                        match snapshot_checked(snapshot, checked(selected, self.limits), export_id, self.limits) {
                            Err(e) => Err(e),
                            Ok(_) => Ok(snapshot),
                        }
                    },
                },
            },
        }
    }

    /// What staging a capsule comes to before the store is looked at: known already, refused, or to be checked.
    pub open spec fn stage_checked(self, session_fence: Seq<u8>, capsule: CapsuleView) -> Result<
        StageView,
        StableJournalError,
    > {
        if session_fence != self.fence_token {
            Err(StableJournalError::Fenced)
        } else if capsule.phase != MigrationPhase::Staged {
            Err(StableJournalError::InvalidMigration("only staged capsules may be imported"))
        } else {
            match sanitize_capsule(capsule, self.limits) {
                Err(e) => Err(e),
                Ok(clean) => if self.migrations.contains_key(clean.transfer_id) {
                    let existing = self.migrations[clean.transfer_id];
                    if existing != clean && !(existing.phase == MigrationPhase::Committed && same_transaction(
                        existing,
                        clean,
                    )) {
                        Err(StableJournalError::MigrationConflict)
                    } else {
                        match existing.phase {
                            MigrationPhase::Staged => Ok(StageView::Known(MigrationStageStatus::AlreadyStaged)),
                            MigrationPhase::Committed => Ok(StageView::Known(MigrationStageStatus::AlreadyCommitted)),
                            MigrationPhase::SourceMoved => Err(StableJournalError::MigrationConflict),
                        }
                    }
                } else if self.has_migration(clean.export_id, MigrationPhase::Staged) {
                    Err(StableJournalError::MigrationConflict)
                } else {
                    Ok(StageView::Fresh(clean))
                },
            }
        }
    }

    /// What staging a fresh capsule writes, given the store's current records.
    pub open spec fn stage_writes(
        self,
        session_fence: Seq<u8>,
        fence: Seq<u8>,
        generation: u64,
        records: Seq<StableRecordView>,
        capsule: CapsuleView,
    ) -> Result<Seq<MutationView>, StableJournalError> {
        match self.current_checked(session_fence, fence, generation, records.len()) {
            Err(e) => Err(e),
            Ok(_) => match import_projection(records, capsule.records, self.limits) {
                Err(e) => Err(e),
                Ok(added) => if records.len() + added + 1 > self.limits.max_records {
                    Err(StableJournalError::LimitExceeded("stable record count after migration import"))
                } else {
                    self.capsule_writes(session_fence, capsule)
                },
            },
        }
    }

    /// What recording a capsule writes.
    pub open spec fn capsule_writes(self, session_fence: Seq<u8>, capsule: CapsuleView) -> Result<
        Seq<MutationView>,
        StableJournalError,
    > {
        match put_change(migration_key(capsule), RecordView::Migration(capsule), self.limits) {
            Err(e) => Err(e),
            Ok(one) => match self.commit_checked(session_fence, seq![one]) {
                Err(e) => Err(e),
                Ok(_) => Ok(seq![one]),
            },
        }
    }

    /// A capsule of a known transaction: its phase, none where the transaction is not known, or why not.
    pub open spec fn known_phase(self, session_fence: Seq<u8>, capsule: CapsuleView) -> Result<
        Option<MigrationPhase>,
        StableJournalError,
    > {
        if session_fence != self.fence_token {
            Err(StableJournalError::Fenced)
        } else {
            match capsule_valid(capsule, checked(capsule.records, self.limits), self.limits) {
                Err(e) => Err(e),
                Ok(_) => if !self.migrations.contains_key(capsule.transfer_id) {
                    Ok(None)
                } else if !same_transaction(self.migrations[capsule.transfer_id], capsule) {
                    Err(StableJournalError::MigrationConflict)
                } else {
                    Ok(Some(self.migrations[capsule.transfer_id].phase))
                },
            }
        }
    }

    /// Arming the cutover of a source: nothing to do, refused, or what is to be recorded.
    pub open spec fn arm_checked(self, session_fence: Seq<u8>, capsule: CapsuleView) -> Result<
        Option<CapsuleView>,
        StableJournalError,
    > {
        if session_fence != self.fence_token {
            Err(StableJournalError::Fenced)
        } else if capsule.phase != MigrationPhase::Staged {
            Err(StableJournalError::InvalidMigration("source cutover requires a staged capsule"))
        } else {
            match capsule_valid(capsule, checked(capsule.records, self.limits), self.limits) {
                Err(e) => Err(e),
                Ok(_) => if self.migrations.contains_key(capsule.transfer_id) {
                    let existing = self.migrations[capsule.transfer_id];
                    if existing.phase == MigrationPhase::SourceMoved && same_transaction(existing, capsule) {
                        Ok(None)
                    } else {
                        Err(StableJournalError::MigrationConflict)
                    }
                } else if self.has_migration(capsule.export_id, MigrationPhase::SourceMoved) {
                    Err(StableJournalError::MigrationConflict)
                } else {
                    Ok(Some(CapsuleView { phase: MigrationPhase::SourceMoved, records: seq![], ..capsule }))
                },
            }
        }
    }

    /// A migration that is to be committed: its capsule with its typed records, or why there is none.
    pub open spec fn commit_candidate(self, session_fence: Seq<u8>, transfer_id: Seq<u8>) -> Result<
        (CapsuleView, Seq<TypedView>),
        StableJournalError,
    > {
        if session_fence != self.fence_token {
            Err(StableJournalError::Fenced)
        } else if !self.migrations.contains_key(transfer_id) {
            Err(StableJournalError::MigrationNotFound)
        } else {
            match sanitize_capsule(self.migrations[transfer_id], self.limits) {
                Err(e) => Err(e),
                Ok(staged) => if staged.phase == MigrationPhase::SourceMoved {
                    Err(StableJournalError::MigrationCommitted)
                } else {
                    match sanitize_transfer(staged.records, checked(staged.records, self.limits), self.limits) {
                        Err(e) => Err(e),
                        Ok((_, typed)) => Ok((staged, typed)),
                    }
                },
            }
        }
    }

    /// What committing a staged capsule writes: the records that are not stored yet, and the committed capsule.
    pub open spec fn commit_writes(
        self,
        session_fence: Seq<u8>,
        fence: Seq<u8>,
        generation: u64,
        records: Seq<StableRecordView>,
        staged: CapsuleView,
    ) -> Result<Seq<MutationView>, StableJournalError> {
        match self.current_checked(session_fence, fence, generation, records.len()) {
            Err(e) => Err(e),
            Ok(_) => match import_projection(records, staged.records, self.limits) {
                Err(e) => Err(e),
                Ok(added) => if records.len() + added > self.limits.max_records {
                    Err(StableJournalError::LimitExceeded("stable record count after migration commit"))
                } else {
                    expected_after_materialized(self, session_fence, image_of(records, records.len()), staged)
                },
            },
        }
    }

    /// What forgetting a staged capsule writes.
    pub open spec fn abort_writes(self, session_fence: Seq<u8>, transfer_id: Seq<u8>) -> Result<
        Seq<MutationView>,
        StableJournalError,
    > {
        if session_fence != self.fence_token {
            Err(StableJournalError::Fenced)
        } else if !self.migrations.contains_key(transfer_id) {
            Err(StableJournalError::MigrationNotFound)
        } else if self.migrations[transfer_id].phase != MigrationPhase::Staged {
            Err(StableJournalError::MigrationCommitted)
        } else {
            match encode_key(
                KeyView::Migration { export_id: self.migrations[transfer_id].export_id, transfer_id },
                self.limits,
            ) {
                Err(e) => Err(e),
                Ok(key) => match self.commit_checked(session_fence, seq![MutationView::Delete { key }]) {
                    Err(e) => Err(e),
                    Ok(_) => Ok(seq![MutationView::Delete { key }]),
                },
            }
        }
    }
}

/// The key under which a capsule is recorded.
pub open spec fn migration_key(capsule: CapsuleView) -> KeyView {
    KeyView::Migration { export_id: capsule.export_id, transfer_id: capsule.transfer_id }
}

/// A staged capsule once it is committed: its records have become records of their own.
pub open spec fn committed_capsule(staged: CapsuleView) -> CapsuleView {
    CapsuleView { phase: MigrationPhase::Committed, records: seq![], ..staged }
}

/// The writes that make the first `n` records of a capsule records of their own; one that is stored already
/// must be the same.
pub open spec fn materialized(image: Map<Seq<u8>, Seq<u8>>, records: Seq<StableRecordView>, n: nat) -> Result<
    Seq<MutationView>,
    StableJournalError,
>
    decreases n,
{
    if n == 0 {
        Ok(seq![])
    } else {
        match materialized(image, records, (n - 1) as nat) {
            Err(e) => Err(e),
            Ok(done) => {
                let one = records[n - 1];
                if !image.contains_key(one.key.flat()) {
                    Ok(done.push(MutationView::Put { key: one.key, payload: one.payload }))
                } else if image[one.key.flat()] == one.payload {
                    Ok(done)
                } else {
                    Err(StableJournalError::MigrationConflict)
                }
            },
        }
    }
}

/// A conflict among the first records is a conflict of them all.
proof fn lemma_materialized_fault(image: Map<Seq<u8>, Seq<u8>>, records: Seq<StableRecordView>, n: nat, m: nat)
    requires
        n <= m,
        materialized(image, records, n) is Err,
    ensures
        materialized(image, records, m) == materialized(image, records, n),
    decreases m - n,
{
    if n < m {
        lemma_materialized_fault(image, records, n, (m - 1) as nat);
    }
}

/// What staging a capsule comes to before the store is looked at.
#[verifier::ext_equal]
pub enum StageView {
    Known(MigrationStageStatus),
    Fresh(CapsuleView),
}

/// What staging a capsule comes to before the store is looked at.
pub enum StageStep {
    /// The capsule was staged or committed before.
    Known(MigrationStageStatus),
    /// The capsule is new: it is staged once the store's current records allow it.
    Fresh(MigrationCapsuleRecord),
}

/// What committing a migration comes to before the store is looked at.
pub enum CommitStep {
    /// The migration was committed before.
    Known(CommittedMigration),
    /// The migration is staged: it is committed once the store's current records allow it.
    Staged(MigrationCapsuleRecord, CommittedMigration),
}

/// The handle keys of the committed migrations among the first `n` of those transfers.
pub open spec fn imported_keys(ids: Seq<Seq<u8>>, migrations: Map<Seq<u8>, CapsuleView>, n: nat) -> Seq<ImportedKeyView>
    decreases n,
{
    if n == 0 {
        seq![]
    } else {
        let done = imported_keys(ids, migrations, (n - 1) as nat);
        let migration = migrations[ids[n - 1]];
        if migration.phase == MigrationPhase::Committed {
            done.push(
                ImportedKeyView {
                    export_id: migration.export_id,
                    transfer_id: migration.transfer_id,
                    server_identity: migration.server_identity,
                    handle_key: migration.handle_key,
                },
            )
        } else {
            done
        }
    }
}

/// What such keys stand for.
pub open spec fn imported_views(keys: Seq<ImportedHandleKey>) -> Seq<ImportedKeyView> {
    Seq::new(keys.len(), |i: int| keys[i]@)
}

/// The transfers in order.
pub open spec fn ordered_ids(ids: Seq<Seq<u8>>, migrations: Map<Seq<u8>, CapsuleView>) -> bool {
    strictly_sorted(ids) && ids.to_set() == migrations.dom()
}

/// The exports are in strictly increasing order.
pub open spec fn increasing(exports: Seq<ExportId>) -> bool {
    forall|i: int, j: int| 0 <= i < j < exports.len() ==> (#[trigger] exports[i]).0 < (#[trigger] exports[j]).0
}

impl StableJournal {
    /// The handle keys that came with committed migrations, in the order of their transfers.
    pub fn imported_handle_keys(&self) -> (keys: Vec<ImportedHandleKey>)
        ensures
            exists|ids: Seq<Seq<u8>>| #[trigger]
                ordered_ids(ids, self@.migrations) && imported_views(keys@) == imported_keys(
                    ids,
                    self@.migrations,
                    ids.len(),
                ),
    {
        self.migrations.order_known();
        let ghost ids = self.migrations.keys();
        let ghost known = capsules(self.migrations@);
        let count: usize = self.migrations.len();
        let mut keys: Vec<ImportedHandleKey> = Vec::new();
        assert(imported_views(keys@) =~= Seq::<ImportedKeyView>::empty());
        let mut i: usize = 0;
        while i < count
            invariant
                i <= count,
                count == self.migrations.keys().len(),
                ids == self.migrations.keys(),
                known == capsules(self.migrations@),
                forall|j: int| 0 <= j < ids.len() ==> self.migrations@.contains_key(#[trigger] ids[j]),
                forall|j: int| 0 <= j < ids.len() ==> self.migrations@[#[trigger] ids[j]] == self.migrations.values()[j],
                imported_views(keys@) == imported_keys(ids, known, i as nat),
            decreases count - i,
        {
            let migration = self.migrations.value_at(i);
            assert(known[ids[i as int]] == migration@);
            if migration.phase == MigrationPhase::Committed {
                let ghost before = keys@;
                let key = ImportedHandleKey {
                    export_id: migration.export_id,
                    transfer_id: migration.transfer_id,
                    server_identity: migration.server_identity.identity,
                    handle_key: migration.handle_key,
                };
                keys.push(key);
                assert(imported_views(keys@) =~= imported_views(before).push(key@));
            }
            i += 1;
        }
        assert(known.dom() =~= self.migrations@.dom());
        assert(ordered_ids(ids, self@.migrations));
        keys
    }

    /// Whether a migration of that export in that phase is known.
    fn has_migration(&self, export_id: ExportId, phase: MigrationPhase) -> (found: bool)
        ensures
            found == self@.has_migration(export_id, phase),
    {
        self.migrations.order_known();
        let count: usize = self.migrations.len();
        let mut i: usize = 0;
        while i < count
            invariant
                i <= count,
                count == self.migrations.keys().len(),
                forall|j: int|
                    0 <= j < count ==> self.migrations@.contains_key(#[trigger] self.migrations.keys()[j]),
                forall|j: int|
                    0 <= j < count ==> self.migrations@[#[trigger] self.migrations.keys()[j]]
                        == self.migrations.values()[j],
                forall|j: int|
                    0 <= j < i ==> !(self.migrations@[#[trigger] self.migrations.keys()[j]]@.export_id == export_id
                        && self.migrations@[self.migrations.keys()[j]]@.phase == phase),
            decreases count - i,
        {
            let migration = self.migrations.value_at(i);
            if migration.export_id == export_id && migration.phase == phase {
                assert(self@.migrations.contains_key(self.migrations.keys()[i as int]));
                return true;
            }
            i += 1;
        }
        proof {
            assert forall|id: Seq<u8>| #[trigger]
                self@.migrations.contains_key(id) implies !(self@.migrations[id].export_id == export_id
                && self@.migrations[id].phase == phase) by {
                assert(self.migrations@.contains_key(id));
                let at = self.migrations.keys().index_of(id);
                assert(self.migrations.keys()[at] == id);
            }
        }
        false
    }

    /// Checks that a snapshot is of the current state of the store.
    pub fn validate_current_snapshot(&self, session_fence: &[u8], snapshot: &StableSnapshot) -> (done: Result<
        (),
        StableJournalError,
    >)
        ensures
            done == self@.current_checked(
                session_fence@,
                snapshot.fence_token@,
                snapshot.generation,
                snapshot.records@.len(),
            ),
    {
        self.verify_live_fence(session_fence)?;
        if !bytes_equal(snapshot.fence_token.as_slice(), self.fence_token.as_slice()) {
            return Err(StableJournalError::Fenced);
        }
        if snapshot.generation != self.generation {
            return Err(
                StableJournalError::CasConflict { expected: self.generation, actual: snapshot.generation },
            );
        }
        if snapshot.records.len() > self.limits.max_records {
            return Err(StableJournalError::LimitExceeded("stable record count"));
        }
        Ok(())
    }

    /// What is exported of one export, from the snapshot that was recovered after a checkpoint.
    pub fn snapshot_for_migration(&self, session_fence: &[u8], snapshot: &StableSnapshot, export_id: ExportId) -> (migration:
        Result<MigrationStableSnapshot, StableJournalError>)
        ensures
            match self@.migration_snapshot(
                session_fence@,
                snapshot.fence_token@,
                snapshot.generation,
                record_views(snapshot.records@),
                export_id,
            ) {
                Ok(expected) => migration is Ok && migration->Ok_0@ == expected,
                Err(e) => migration == Err::<MigrationStableSnapshot, StableJournalError>(e),
            },
    {
        self.validate_current_snapshot(session_fence, snapshot)?;
        let decoded = decode_snapshot(&snapshot.records, self.limits)?;
        let records = select_export_records(decoded.records, export_id, self.limits)?;
        let migration = MigrationStableSnapshot {
            source_generation: snapshot.generation,
            server_identity: self.server_identity,
            boot: self.boot,
            handle_key: self.handle_key,
            records,
        };
        validate_migration_snapshot(&migration, export_id, self.limits)?;
        Ok(migration)
    }

    /// What staging a capsule comes to before the store is looked at.
    pub fn stage_migration_import(&self, session_fence: &[u8], capsule: MigrationCapsuleRecord) -> (step: Result<
        StageStep,
        StableJournalError,
    >)
        ensures
            match self@.stage_checked(session_fence@, capsule@) {
                Err(e) => step == Err::<StageStep, StableJournalError>(e),
                Ok(StageView::Known(status)) => step == Ok::<StageStep, StableJournalError>(StageStep::Known(status)),
                Ok(StageView::Fresh(clean)) => step is Ok && step->Ok_0 is Fresh && (step->Ok_0->Fresh_0)@ == clean,
            },
    {
        self.verify_live_fence(session_fence)?;
        if capsule.phase != MigrationPhase::Staged {
            return Err(StableJournalError::InvalidMigration("only staged capsules may be imported"));
        }
        let capsule = sanitize_migration_capsule(capsule, self.limits)?;
        if let Some(existing) = self.migrations.get(capsule.transfer_id.as_slice()) {
            assert(self@.migrations[capsule@.transfer_id] == existing@);
            if !same_capsule(existing, &capsule) && !(existing.phase == MigrationPhase::Committed
                && migration_identity_matches(existing, &capsule)) {
                return Err(StableJournalError::MigrationConflict);
            }
            return match existing.phase {
                MigrationPhase::Staged => Ok(StageStep::Known(MigrationStageStatus::AlreadyStaged)),
                MigrationPhase::Committed => Ok(StageStep::Known(MigrationStageStatus::AlreadyCommitted)),
                MigrationPhase::SourceMoved => Err(StableJournalError::MigrationConflict),
            };
        }
        if self.has_migration(capsule.export_id, MigrationPhase::Staged) {
            return Err(StableJournalError::MigrationConflict);
        }
        Ok(StageStep::Fresh(capsule))
    }

    /// Plans to record a capsule.
    fn plan_capsule(&self, session_fence: &[u8], capsule: MigrationCapsuleRecord) -> (plan: Result<
        CommitPlan,
        StableJournalError,
    >)
        ensures
            planned(plan, self@, self@.capsule_writes(session_fence@, capsule@)),
            plan is Ok ==> plan->Ok_0.effect_of() is Capsule && (plan->Ok_0.effect_of()->Capsule_0)@ == capsule@,
    {
        let key = JournalKey::Migration { export_id: capsule.export_id, transfer_id: capsule.transfer_id };
        let record = JournalRecord::Migration(capsule.copy());
        let mutation = put_mutation(&key, &record, self.limits)?;
        let mut mutations: Vec<StableMutation> = Vec::new();
        mutations.push(mutation);
        assert(mutation_views(mutations@) =~= seq![mutation@]);
        self.plan_commit(session_fence, mutations, PlanEffect::Capsule(capsule))
    }

    /// Plans to stage a fresh capsule, given the store's current records. Staged state stays out of recovery
    /// until it is committed.
    pub fn stage_fresh(&self, session_fence: &[u8], snapshot: &StableSnapshot, capsule: MigrationCapsuleRecord) -> (plan:
        Result<CommitPlan, StableJournalError>)
        ensures
            planned(
                plan,
                self@,
                self@.stage_writes(
                    session_fence@,
                    snapshot.fence_token@,
                    snapshot.generation,
                    record_views(snapshot.records@),
                    capsule@,
                ),
            ),
            plan is Ok ==> plan->Ok_0.effect_of() is Capsule && (plan->Ok_0.effect_of()->Capsule_0)@ == capsule@,
    {
        self.validate_current_snapshot(session_fence, snapshot)?;
        let (_, added) = validate_import_projection(&snapshot.records, &capsule.records, self.limits)?;
        let count: usize = snapshot.records.len();
        let limit: usize = self.limits.max_records;
        if limit == 0 || added > limit - 1 || count > limit - 1 - added {
            return Err(StableJournalError::LimitExceeded("stable record count after migration import"));
        }
        self.plan_capsule(session_fence, capsule)
    }

    /// Whether this very migration was committed before.
    pub fn migration_import_already_committed(&self, session_fence: &[u8], capsule: &MigrationCapsuleRecord) -> (committed:
        Result<bool, StableJournalError>)
        ensures
            committed == match self@.known_phase(session_fence@, capsule@) {
                Err(e) => Err::<bool, StableJournalError>(e),
                Ok(phase) => Ok(phase == Some(MigrationPhase::Committed)),
            },
    {
        self.verify_live_fence(session_fence)?;
        validate_migration_capsule(capsule, self.limits)?;
        match self.migrations.get(capsule.transfer_id.as_slice()) {
            None => Ok(false),
            Some(existing) => {
                assert(self@.migrations[capsule@.transfer_id] == existing@);
                if !migration_identity_matches(existing, capsule) {
                    return Err(StableJournalError::MigrationConflict);
                }
                Ok(existing.phase == MigrationPhase::Committed)
            },
        }
    }

    /// Whether the cutover of this very source was armed before.
    pub fn source_cutover_armed(&self, session_fence: &[u8], capsule: &MigrationCapsuleRecord) -> (armed: Result<
        bool,
        StableJournalError,
    >)
        ensures
            armed == match self@.known_phase(session_fence@, capsule@) {
                Err(e) => Err::<bool, StableJournalError>(e),
                Ok(phase) => Ok(phase == Some(MigrationPhase::SourceMoved)),
            },
    {
        self.verify_live_fence(session_fence)?;
        validate_migration_capsule(capsule, self.limits)?;
        match self.migrations.get(capsule.transfer_id.as_slice()) {
            None => Ok(false),
            Some(existing) => {
                assert(self@.migrations[capsule@.transfer_id] == existing@);
                if !migration_identity_matches(existing, capsule) {
                    return Err(StableJournalError::MigrationConflict);
                }
                Ok(existing.phase == MigrationPhase::SourceMoved)
            },
        }
    }

    /// The exports whose source cutover was armed, each once and in order.
    pub fn source_moved_exports(&self) -> (exports: Vec<ExportId>)
        ensures
            increasing(exports@),
            forall|e: ExportId| exports@.contains(e) <==> self@.has_migration(e, MigrationPhase::SourceMoved),
    {
        self.migrations.order_known();
        let count: usize = self.migrations.len();
        let mut exports: Vec<ExportId> = Vec::new();
        let mut i: usize = 0;
        while i < count
            invariant
                i <= count,
                count == self.migrations.keys().len(),
                forall|j: int|
                    0 <= j < count ==> self.migrations@.contains_key(#[trigger] self.migrations.keys()[j]),
                forall|j: int|
                    0 <= j < count ==> self.migrations@[#[trigger] self.migrations.keys()[j]]
                        == self.migrations.values()[j],
                increasing(exports@),
                forall|e: ExportId| #[trigger]
                    exports@.contains(e) ==> self@.has_migration(e, MigrationPhase::SourceMoved),
                forall|j: int|
                    0 <= j < i && self.migrations@[#[trigger] self.migrations.keys()[j]]@.phase
                        == MigrationPhase::SourceMoved ==> exports@.contains(
                        self.migrations@[self.migrations.keys()[j]]@.export_id,
                    ),
            decreases count - i,
        {
            let migration = self.migrations.value_at(i);
            if migration.phase == MigrationPhase::SourceMoved {
                let ghost before = exports@;
                insert_export(&mut exports, migration.export_id);
                proof {
                    assert(self@.migrations.contains_key(self.migrations.keys()[i as int]));
                    assert(self@.has_migration(migration.export_id, MigrationPhase::SourceMoved));
                }
            }
            i += 1;
        }
        proof {
            assert forall|e: ExportId| self@.has_migration(e, MigrationPhase::SourceMoved) implies exports@.contains(
                e,
            ) by {
                let id = choose|id: Seq<u8>| #[trigger]
                    self@.migrations.contains_key(id) && self@.migrations[id].export_id == e && self@.migrations[id].phase
                        == MigrationPhase::SourceMoved;
                assert(self.migrations@.contains_key(id));
                let at = self.migrations.keys().index_of(id);
                assert(self.migrations.keys()[at] == id);
            }
        }
        exports
    }

    /// Arms the cutover of a source: nothing to do where it was armed before, else the plan that records it.
    /// An armed cutover is never undone.
    pub fn arm_source_cutover(&self, session_fence: &[u8], capsule: MigrationCapsuleRecord) -> (plan: Result<
        Option<CommitPlan>,
        StableJournalError,
    >)
        ensures
            match self@.arm_checked(session_fence@, capsule@) {
                Err(e) => plan == Err::<Option<CommitPlan>, StableJournalError>(e),
                Ok(None) => plan == Ok::<Option<CommitPlan>, StableJournalError>(None),
                Ok(Some(marker)) => match self@.capsule_writes(session_fence@, marker) {
                    Err(e) => plan == Err::<Option<CommitPlan>, StableJournalError>(e),
                    Ok(mutations) => plan is Ok && plan->Ok_0 is Some && (plan->Ok_0->0).writes(
                        self@.generation,
                        self@.live,
                        mutations,
                    ) && (plan->Ok_0->0).effect_of() is Capsule && ((plan->Ok_0->0).effect_of()->Capsule_0)@ == marker,
                },
            },
    {
        self.verify_live_fence(session_fence)?;
        if capsule.phase != MigrationPhase::Staged {
            return Err(StableJournalError::InvalidMigration("source cutover requires a staged capsule"));
        }
        validate_migration_capsule(&capsule, self.limits)?;
        if let Some(existing) = self.migrations.get(capsule.transfer_id.as_slice()) {
            assert(self@.migrations[capsule@.transfer_id] == existing@);
            if existing.phase == MigrationPhase::SourceMoved && migration_identity_matches(existing, &capsule) {
                return Ok(None);
            }
            return Err(StableJournalError::MigrationConflict);
        }
        if self.has_migration(capsule.export_id, MigrationPhase::SourceMoved) {
            return Err(StableJournalError::MigrationConflict);
        }
        let ghost given = capsule@;
        let mut capsule = capsule;
        capsule.phase = MigrationPhase::SourceMoved;
        capsule.records = Vec::new();
        assert(capsule@ =~= (CapsuleView { phase: MigrationPhase::SourceMoved, records: seq![], ..given }));
        let plan = self.plan_capsule(session_fence, capsule)?;
        Ok(Some(plan))
    }

    /// What committing a migration comes to before the store is looked at.
    pub fn commit_migration_import(&self, session_fence: &[u8], transfer_id: [u8; 16]) -> (step: Result<
        CommitStep,
        StableJournalError,
    >)
        ensures
            match self@.commit_candidate(session_fence@, transfer_id@) {
                Err(e) => step == Err::<CommitStep, StableJournalError>(e),
                Ok((staged, typed)) => step is Ok && if staged.phase == MigrationPhase::Committed {
                    step->Ok_0 is Known && (step->Ok_0->Known_0)@ == committed_migration(staged, typed)
                } else {
                    step->Ok_0 is Staged && (step->Ok_0->Staged_0)@ == staged && (step->Ok_0->Staged_1)@
                        == committed_migration(staged, typed)
                },
            },
    {
        self.verify_live_fence(session_fence)?;
        let known = match self.migrations.get(transfer_id.as_slice()) {
            Some(known) => known.copy(),
            None => {
                return Err(StableJournalError::MigrationNotFound);
            },
        };
        assert(self@.migrations[transfer_id@] == known@);
        let staged = sanitize_migration_capsule(known, self.limits)?;
        if staged.phase == MigrationPhase::SourceMoved {
            return Err(StableJournalError::MigrationCommitted);
        }
        let records = decode_transfer_records(&staged.records, self.limits)?;
        let migration = CommittedMigration {
            export_id: staged.export_id,
            transfer_id: staged.transfer_id,
            server_identity: staged.server_identity.identity,
            boot: staged.boot,
            handle_key: staged.handle_key,
            records,
        };
        if staged.phase == MigrationPhase::Committed {
            return Ok(CommitStep::Known(migration));
        }
        Ok(CommitStep::Staged(staged, migration))
    }

    /// Plans to commit a staged capsule, given the store's current records: all of its records become durable
    /// together with the committed marker, or none does.
    pub fn commit_staged(&self, session_fence: &[u8], snapshot: &StableSnapshot, staged: &MigrationCapsuleRecord) -> (plan:
        Result<CommitPlan, StableJournalError>)
        ensures
            planned(
                plan,
                self@,
                self@.commit_writes(
                    session_fence@,
                    snapshot.fence_token@,
                    snapshot.generation,
                    record_views(snapshot.records@),
                    staged@,
                ),
            ),
            plan is Ok ==> plan->Ok_0.effect_of() is Capsule && (plan->Ok_0.effect_of()->Capsule_0)@
                == committed_capsule(staged@),
    {
        self.validate_current_snapshot(session_fence, snapshot)?;
        let (existing, added) = validate_import_projection(&snapshot.records, &staged.records, self.limits)?;
        let count: usize = snapshot.records.len();
        if added > self.limits.max_records || count > self.limits.max_records - added {
            return Err(StableJournalError::LimitExceeded("stable record count after migration commit"));
        }
        let ghost image = image_of(record_views(snapshot.records@), snapshot.records@.len());
        let ghost wanted = record_views(staged.records@);
        let mut mutations: Vec<StableMutation> = Vec::new();
        assert(mutation_views(mutations@) =~= Seq::<MutationView>::empty());
        let mut i: usize = 0;
        while i < staged.records.len()
            invariant
                i <= staged.records@.len(),
                payloads(existing@) == image,
                wanted == record_views(staged.records@),
                mutations@.len() <= i,
                materialized(image, wanted, i as nat) == Ok::<Seq<MutationView>, StableJournalError>(
                    mutation_views(mutations@),
                ),
                self@.commit_writes(
                    session_fence@,
                    snapshot.fence_token@,
                    snapshot.generation,
                    record_views(snapshot.records@),
                    staged@,
                ) == expected_after_materialized(self@, session_fence@, image, staged@),
            decreases staged.records@.len() - i,
        {
            let record = &staged.records[i];
            assert(wanted[i as int] == record@);
            let flat = record.key.flat();
            let ghost before = mutations@;
            match existing.get(flat.as_slice()) {
                Some(payload) => {
                    assert(image.contains_key(flat@) && image[flat@] == payload@);
                    if !bytes_equal(payload.as_slice(), record.payload.as_slice()) {
                        proof {
                            lemma_materialized_fault(image, wanted, (i + 1) as nat, wanted.len());
                        }
                        return Err(StableJournalError::MigrationConflict);
                    }
                },
                None => {
                    assert(!image.contains_key(flat@));
                    let put = StableMutation::Put {
                        key: record.key.copy(),
                        payload: crate::bytes::copy_bytes(record.payload.as_slice()),
                    };
                    mutations.push(put);
                    assert(mutation_views(mutations@) =~= mutation_views(before).push(put@));
                },
            }
            i += 1;
        }
        let ghost puts = mutation_views(mutations@);
        let mut committed = staged.copy();
        committed.phase = MigrationPhase::Committed;
        committed.records = Vec::new();
        assert(committed@ =~= committed_capsule(staged@));
        let key = JournalKey::Migration { export_id: committed.export_id, transfer_id: committed.transfer_id };
        let marker = put_mutation(&key, &JournalRecord::Migration(committed.copy()), self.limits)?;
        mutations.push(marker);
        assert(mutation_views(mutations@) =~= puts.push(marker@));
        if mutations.len() > self.limits.max_batch_mutations {
            return Err(StableJournalError::LimitExceeded("migration commit batch"));
        }
        self.plan_commit(session_fence, mutations, PlanEffect::Capsule(committed))
    }

    /// Plans to forget a staged capsule.
    pub fn abort_migration_import(&self, session_fence: &[u8], transfer_id: [u8; 16]) -> (plan: Result<
        CommitPlan,
        StableJournalError,
    >)
        ensures
            planned(plan, self@, self@.abort_writes(session_fence@, transfer_id@)),
            plan is Ok ==> plan->Ok_0.effect_of() == PlanEffect::Release(transfer_id),
    {
        self.verify_live_fence(session_fence)?;
        let export_id = match self.migrations.get(transfer_id.as_slice()) {
            None => {
                return Err(StableJournalError::MigrationNotFound);
            },
            Some(staged) => {
                assert(self@.migrations[transfer_id@] == staged@);
                if staged.phase != MigrationPhase::Staged {
                    return Err(StableJournalError::MigrationCommitted);
                }
                staged.export_id
            },
        };
        let key = JournalKey::Migration { export_id, transfer_id };
        let stored = key.encode(self.limits)?;
        let mut mutations: Vec<StableMutation> = Vec::new();
        let ghost view = stored@;
        mutations.push(StableMutation::Delete { key: stored });
        assert(mutation_views(mutations@) =~= seq![MutationView::Delete { key: view }]);
        self.plan_commit(session_fence, mutations, PlanEffect::Release(transfer_id))
    }
}

/// What committing a capsule writes once the store's current records allow it.
pub open spec fn expected_after_materialized(
    journal: JournalView,
    session_fence: Seq<u8>,
    image: Map<Seq<u8>, Seq<u8>>,
    staged: CapsuleView,
) -> Result<Seq<MutationView>, StableJournalError> {
    let committed = committed_capsule(staged);
    match materialized(image, staged.records, staged.records.len()) {
        Err(e) => Err(e),
        Ok(puts) => match put_change(migration_key(committed), RecordView::Migration(committed), journal.limits) {
            Err(e) => Err(e),
            Ok(one) => if puts.len() + 1 > journal.limits.max_batch_mutations {
                Err(StableJournalError::LimitExceeded("migration commit batch"))
            } else {
                match journal.commit_checked(session_fence, puts.push(one)) {
                    Err(e) => Err(e),
                    Ok(_) => Ok(puts.push(one)),
                }
            },
        },
    }
}

/// Adds an export to an increasing list, unless it is there.
fn insert_export(exports: &mut Vec<ExportId>, export_id: ExportId)
    requires
        increasing(old(exports)@),
    ensures
        increasing(final(exports)@),
        forall|e: ExportId| final(exports)@.contains(e) <==> old(exports)@.contains(e) || e == export_id,
{
    let mut at: usize = 0;
    while at < exports.len() && exports[at].0 < export_id.0
        invariant
            at <= exports@.len(),
            exports@ == old(exports)@,
            forall|j: int| 0 <= j < at ==> (#[trigger] exports@[j]).0 < export_id.0,
        decreases exports@.len() - at,
    {
        at += 1;
    }
    if at < exports.len() && exports[at].0 == export_id.0 {
        assert(exports@[at as int] == export_id);
        return;
    }
    let ghost before = exports@;
    exports.insert(at, export_id);
    proof {
        assert(exports@ =~= before.insert(at as int, export_id));
        assert(exports@[at as int] == export_id);
        assert forall|e: ExportId| exports@.contains(e) <==> before.contains(e) || e == export_id by {
            if before.contains(e) {
                let i = before.index_of(e);
                if i < at {
                    assert(exports@[i] == e);
                } else {
                    assert(exports@[i + 1] == e);
                }
            }
            if exports@.contains(e) && e != export_id {
                let i = exports@.index_of(e);
                if i < at {
                    assert(before[i] == e);
                } else {
                    assert(before[i - 1] == e);
                }
            }
        }
    }
}

} // verus!
