//! What a migration is to the two servers: one transaction, told by all that identifies it, one at a time for each export,
//! and only for a session that still holds the journal.

use vstd::prelude::*;

use crate::codec::ExportId;
use crate::commit::MutationView;
use crate::error::StableJournalError;
use crate::journal::migration::{imported_keys, materialized, ImportedKeyView, StageView};
use crate::journal::{finished, startup_checked, ChangeView, CommitPlan, JournalView, PlanEffect};
use crate::layout::checked;
use crate::limits::StableJournalLimits;
use crate::record::{CapsuleView, KeyView, MigrationPhase, RecordView, StableRecordView};
use crate::snapshot::{decode_image, join_decoded, DecodedView};
use crate::transfer::capsule_valid;
use crate::wire::sanitize_capsule;

verus! {

/// A session that does not hold the journal any more changes nothing: whatever it asks for is refused for that reason.
pub proof fn lemma_fenced_off(
    journal: JournalView,
    session_fence: Seq<u8>,
    batch: Seq<ChangeView>,
    capsule: CapsuleView,
    transfer_id: Seq<u8>,
    mutations: Seq<MutationView>,
)
    requires
        session_fence != journal.fence_token,
    ensures
        journal.commit_checked(session_fence, mutations) == Err::<(), StableJournalError>(StableJournalError::Fenced),
        0 < batch.len() <= journal.limits.max_batch_mutations ==> journal.persist_checked(session_fence, batch) == Err::<
            Seq<MutationView>,
            StableJournalError,
        >(StableJournalError::Fenced),
        journal.persist_checked(session_fence, batch) is Err,
        journal.clean_writes(session_fence) is Err,
        journal.stage_checked(session_fence, capsule) == Err::<StageView, StableJournalError>(StableJournalError::Fenced),
        journal.arm_checked(session_fence, capsule) == Err::<Option<CapsuleView>, StableJournalError>(
            StableJournalError::Fenced,
        ),
        journal.known_phase(session_fence, capsule) == Err::<Option<MigrationPhase>, StableJournalError>(
            StableJournalError::Fenced,
        ),
        journal.commit_candidate(session_fence, transfer_id) is Err,
        journal.abort_writes(session_fence, transfer_id) == Err::<Seq<MutationView>, StableJournalError>(
            StableJournalError::Fenced,
        ),
{
}

/// A snapshot is taken, and a migration staged or committed, only from what the store holds now, as the journal knows it:
/// under the journal's own fence, and of its own generation.
pub proof fn lemma_current_only(
    journal: JournalView,
    session_fence: Seq<u8>,
    fence: Seq<u8>,
    generation: u64,
    records: Seq<StableRecordView>,
    export_id: ExportId,
    capsule: CapsuleView,
)
    requires
        session_fence != journal.fence_token || fence != journal.fence_token || generation != journal.generation,
    ensures
        journal.migration_snapshot(session_fence, fence, generation, records, export_id) is Err,
        journal.stage_writes(session_fence, fence, generation, records, capsule) is Err,
        journal.commit_writes(session_fence, fence, generation, records, capsule) is Err,
{
}

/// A transaction is known again where all that identifies it is the same: the two capsules differ in their phase and in
/// their records at most.
pub proof fn lemma_one_transaction(journal: JournalView, session_fence: Seq<u8>, capsule: CapsuleView)
    requires
        journal.migrations.contains_key(capsule.transfer_id),
    ensures
        ({
            let known = journal.migrations[capsule.transfer_id];
            let same = known == (CapsuleView { phase: known.phase, records: known.records, ..capsule });
            &&& journal.known_phase(session_fence, capsule) matches Ok(told) ==> same && told == Some(known.phase)
            &&& same && session_fence == journal.fence_token && capsule_valid(
                capsule,
                checked(capsule.records, journal.limits),
                journal.limits,
            ) is Ok ==> journal.known_phase(session_fence, capsule) is Ok
            &&& journal.arm_checked(session_fence, capsule) matches Ok(told) ==> same && told is None && known.phase
                == MigrationPhase::SourceMoved
        }),
{
}

/// A cutover that is armed afresh is recorded as what it is: the capsule without its records, in its new phase. No cutover
/// of that export was armed before.
pub proof fn lemma_armed_once(journal: JournalView, session_fence: Seq<u8>, capsule: CapsuleView, armed: CapsuleView, id: Seq<u8>)
    requires
        journal.arm_checked(session_fence, capsule) == Ok::<Option<CapsuleView>, StableJournalError>(Some(armed)),
    ensures
        armed == (CapsuleView { phase: MigrationPhase::SourceMoved, records: seq![], ..capsule }),
        capsule.phase == MigrationPhase::Staged,
        !journal.migrations.contains_key(capsule.transfer_id),
        journal.migrations.contains_key(id) && journal.migrations[id].phase == MigrationPhase::SourceMoved
            ==> journal.migrations[id].export_id != capsule.export_id,
{
}

/// A migration that is staged afresh is one that was never known, and no other one of its export is staged. All that
/// identifies it is recorded as it was offered.
pub proof fn lemma_staged_once(journal: JournalView, session_fence: Seq<u8>, capsule: CapsuleView, staged: CapsuleView, id: Seq<u8>)
    requires
        journal.stage_checked(session_fence, capsule) == Ok::<StageView, StableJournalError>(StageView::Fresh(staged)),
    ensures
        staged == (CapsuleView { records: staged.records, ..capsule }),
        capsule.phase == MigrationPhase::Staged,
        !journal.migrations.contains_key(capsule.transfer_id),
        journal.migrations.contains_key(id) && journal.migrations[id].phase == MigrationPhase::Staged
            ==> journal.migrations[id].export_id != capsule.export_id,
{
    reveal(sanitize_capsule);
}

/// Committing a migration writes each of its records that is not stored yet, as it came, and nothing else but that it is
/// committed; a record that is stored otherwise keeps it from being committed.
pub proof fn lemma_commit_writes_records(image: Map<Seq<u8>, Seq<u8>>, records: Seq<StableRecordView>, n: nat)
    requires
        n <= records.len(),
    ensures
        materialized(image, records, n) is Ok <==> forall|i: int|
            0 <= i < n && image.contains_key((#[trigger] records[i]).key.flat()) ==> image[records[i].key.flat()]
                == records[i].payload,
        materialized(image, records, n) matches Ok(puts) ==> {
            &&& forall|i: int|
                0 <= i < n && !image.contains_key((#[trigger] records[i]).key.flat()) ==> puts.contains(
                    MutationView::Put { key: records[i].key, payload: records[i].payload },
                )
            &&& forall|k: int|
                0 <= k < puts.len() ==> exists|i: int|
                    0 <= i < n && !image.contains_key((#[trigger] records[i]).key.flat()) && #[trigger] puts[k]
                        == (MutationView::Put { key: records[i].key, payload: records[i].payload })
        },
    decreases n,
{
    if n > 0 {
        let m = (n - 1) as nat;
        lemma_commit_writes_records(image, records, m);
        if materialized(image, records, n) is Ok {
            let before = materialized(image, records, m)->Ok_0;
            let after = materialized(image, records, n)->Ok_0;
            assert forall|i: int| 0 <= i < n && !image.contains_key((#[trigger] records[i]).key.flat()) implies after.contains(
                MutationView::Put { key: records[i].key, payload: records[i].payload },
            ) by {
                if i < m {
                    let k = before.index_of(MutationView::Put { key: records[i].key, payload: records[i].payload });
                    assert(after[k] == before[k]);
                } else {
                    assert(after[after.len() - 1] == (MutationView::Put { key: records[i].key, payload: records[i].payload }));
                }
            }
            assert forall|k: int| 0 <= k < after.len() implies exists|i: int|
                0 <= i < n && !image.contains_key((#[trigger] records[i]).key.flat()) && #[trigger] after[k]
                    == (MutationView::Put { key: records[i].key, payload: records[i].payload }) by {
                if k < before.len() {
                    assert(after[k] == before[k]);
                    let i = choose|i: int|
                        0 <= i < m && !image.contains_key((#[trigger] records[i]).key.flat()) && before[k]
                            == (MutationView::Put { key: records[i].key, payload: records[i].payload });
                    assert(after[k] == (MutationView::Put { key: records[i].key, payload: records[i].payload }));
                } else {
                    assert(!image.contains_key(records[m as int].key.flat()));
                }
            }
        }
    }
}

/// The handle keys of other servers that are honoured are those of the migrations that were committed, each as it came with
/// its migration, and no others.
pub proof fn lemma_keys_honoured(ids: Seq<Seq<u8>>, migrations: Map<Seq<u8>, CapsuleView>, n: nat, key: ImportedKeyView)
    requires
        n <= ids.len(),
    ensures
        imported_keys(ids, migrations, n).contains(key) <==> exists|i: int|
            0 <= i < n && #[trigger] brings_key(migrations[ids[i]], key),
    decreases n,
{
    if n > 0 {
        let m = (n - 1) as nat;
        lemma_keys_honoured(ids, migrations, m, key);
        let before = imported_keys(ids, migrations, m);
        let after = imported_keys(ids, migrations, n);
        if before.contains(key) {
            assert(after[before.index_of(key)] == key);
        }
        if brings_key(migrations[ids[m as int]], key) {
            assert(after[after.len() - 1] == key);
        }
        if after.contains(key) && !before.contains(key) {
            let k = after.index_of(key);
            assert(k == before.len()) by {
                if k < before.len() {
                    assert(before[k] == key);
                }
            }
            assert(brings_key(migrations[ids[m as int]], key));
        }
    }
}

/// A committed migration brought that key.
pub open spec fn brings_key(migration: CapsuleView, key: ImportedKeyView) -> bool {
    &&& migration.phase == MigrationPhase::Committed
    &&& key.export_id == migration.export_id
    &&& key.transfer_id == migration.transfer_id
    &&& key.server_identity == migration.server_identity
    &&& key.handle_key == migration.handle_key
}

/// A store tells one server, one run, one handle key and each transfer once: a record that tells any of them again makes it
/// unreadable.
pub proof fn lemma_recorded_once(done: DecodedView, key: KeyView, record: RecordView, limits: StableJournalLimits)
    ensures
        record is Schema && done.schema is Some ==> join_decoded(done, key, record, limits) is Err,
        record is ServerIdentity && done.server_identity is Some ==> join_decoded(done, key, record, limits) is Err,
        record is Boot && done.boot is Some ==> join_decoded(done, key, record, limits) is Err,
        record is HandleKey && done.handle_key is Some ==> join_decoded(done, key, record, limits) is Err,
        record matches RecordView::Migration(capsule) ==> (done.migrations.contains_key(capsule.transfer_id)
            ==> join_decoded(done, key, record, limits) is Err),
        join_decoded(done, key, record, limits) matches Ok(after) ==> {
            &&& record matches RecordView::Migration(capsule) ==> after.migrations.contains_key(capsule.transfer_id)
            &&& forall|id: Seq<u8>| #[trigger]
                done.migrations.contains_key(id) ==> after.migrations.contains_key(id) && after.migrations[id]
                    == done.migrations[id]
        },
{
    reveal(sanitize_capsule);
}

/// A run starts only on a store that it holds, whose records it can read and has room for; and a store that is not empty
/// tells its schema, its server, its handle key and its last run.
pub proof fn lemma_start_checked(
    session_fence: Seq<u8>,
    fence: Seq<u8>,
    records: Seq<StableRecordView>,
    limits: StableJournalLimits,
)
    ensures
        startup_checked(session_fence, fence, records, limits) matches Ok(decoded) ==> {
            &&& fence == session_fence
            &&& records.len() <= limits.max_records
            &&& limits.max_records > 0
            &&& limits.max_batch_mutations > 0
            &&& decode_image(records, limits) == Ok::<DecodedView, StableJournalError>(decoded)
            &&& records.len() > 0 ==> decoded.schema is Some && decoded.server_identity is Some && decoded.handle_key
                is Some && decoded.boot is Some
        },
        fence != session_fence ==> startup_checked(session_fence, fence, records, limits) is Err,
{
}

/// A migration that is forgotten is as if it had never been staged; the others are as they were.
pub proof fn lemma_forgotten(journal: JournalView, plan: CommitPlan, generation: u64, transfer_id: [u8; 16], id: Seq<u8>)
    requires
        plan.effect_of() == PlanEffect::Release(transfer_id),
    ensures
        ({
            let after = finished(journal, plan, generation);
            &&& !after.migrations.contains_key(transfer_id@)
            &&& id != transfer_id@ ==> after.migrations.contains_key(id) == journal.migrations.contains_key(id)
            &&& id != transfer_id@ && journal.migrations.contains_key(id) ==> after.migrations[id] == journal.migrations[id]
            &&& after.boot == journal.boot
            &&& after.server_identity == journal.server_identity
            &&& after.handle_key == journal.handle_key
            &&& after.generation == generation
        }),
{
}

} // verus!
