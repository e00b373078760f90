//! What holds of the journal whatever it is asked to do.

use vstd::prelude::*;

use crate::commit::{
    apply_mutations, commit_verdict, mutation_key, overlay, recovered_verdict, CommitVerdict,
    MutationView,
};
use crate::error::{StableJournalError, StableStateError};
use crate::journal::migration::{
    committed_capsule, migration_key, MigrationStageStatus, StageView,
};
use crate::journal::{
    encode_batch, finished, put_change, shutdown_of, startup_identity, startup_writes, ChangeView,
    CommitPlan, FreshIdentity, JournalView, PreviousShutdown,
};
use crate::layout::{checked, encode_key};
use crate::limits::StableJournalLimits;
use crate::record::{key_reserved, BootView, CapsuleView, MigrationPhase, StableRecordView};
use crate::snapshot::{image_of, DecodedView};
use crate::transfer::{
    capsule_valid, confirmed_as, image_checked, retained, retained_stable, revokes, sanitize_transfer,
    snapshot_checked, suppressed, transfer_typed, Transfer, TypedView,
};
use crate::wire::sanitize_capsule;

verus! {

/// A plan that took effect leaves exactly what its mutations make of the live records.
pub proof fn lemma_finish_applies(journal: JournalView, plan: CommitPlan, mutations: Seq<MutationView>, generation: u64)
    requires
        plan.writes(journal.generation, journal.live, mutations),
    ensures
        finished(journal, plan, generation).live == apply_mutations(journal.live, mutations, mutations.len()),
        finished(journal, plan, generation).generation == generation,
        finished(journal, plan, generation).fence_token == journal.fence_token,
        finished(journal, plan, generation).server_identity == journal.server_identity,
        finished(journal, plan, generation).handle_key == journal.handle_key,
        finished(journal, plan, generation).recovery == journal.recovery,
{
}

/// The journal never holds more records than its bound.
pub proof fn lemma_live_bounded(
    journal: JournalView,
    session_fence: Seq<u8>,
    plan: CommitPlan,
    mutations: Seq<MutationView>,
    generation: u64,
)
    requires
        journal.commit_checked(session_fence, mutations) is Ok,
        plan.writes(journal.generation, journal.live, mutations),
    ensures
        finished(journal, plan, generation).live.dom().len() <= journal.limits.max_records,
{
}

/// A commit counts as made only where the store said so with a new generation.
pub proof fn lemma_commit_advances(
    session_fence: Seq<u8>,
    fence_token: Seq<u8>,
    expected_generation: u64,
    result: Result<u64, StableStateError>,
    generation: u64,
)
    requires
        commit_verdict(session_fence, fence_token, expected_generation, result) == CommitVerdict::Settled(
            Ok::<u64, StableJournalError>(generation),
        ),
    ensures
        result == Ok::<u64, StableStateError>(generation),
        generation != expected_generation,
{
}

/// A commit whose outcome was uncertain counts as made only where the recovered image, under the journal's own
/// fence, is exactly the expected one and its generation is a new one.
pub proof fn lemma_recovered_exactly(
    fence_token: Seq<u8>,
    expected_generation: u64,
    live: Map<Seq<u8>, Seq<u8>>,
    updates: Map<Seq<u8>, Option<Seq<u8>>>,
    limits: StableJournalLimits,
    commit_error: StableStateError,
    fence: Seq<u8>,
    generation: u64,
    records: Seq<StableRecordView>,
)
    requires
        recovered_verdict(
            fence_token,
            expected_generation,
            live,
            updates,
            limits,
            commit_error,
            fence,
            generation,
            records,
        ) is Ok,
    ensures
        fence == fence_token,
        generation != expected_generation,
        image_of(records, records.len()) == overlay(live, updates),
        recovered_verdict(
            fence_token,
            expected_generation,
            live,
            updates,
            limits,
            commit_error,
            fence,
            generation,
            records,
        ) == Ok::<u64, StableJournalError>(generation),
{
}

/// A batch never writes a reserved record.
pub proof fn lemma_reserved_untouched(batch: Seq<ChangeView>, limits: StableJournalLimits, n: nat, i: int)
    requires
        encode_batch(batch, limits, n) is Ok,
        0 <= i < n <= batch.len(),
    ensures
        match batch[i] {
            ChangeView::Put { key, record: _ } => !key_reserved(key),
            ChangeView::Delete { key } => !key_reserved(key),
        },
    decreases n,
{
    if i < n - 1 {
        lemma_reserved_untouched(batch, limits, (n - 1) as nat, i);
    }
}

/// A key that no mutation names keeps its payload.
pub proof fn lemma_untouched(live: Map<Seq<u8>, Seq<u8>>, mutations: Seq<MutationView>, n: nat, key: Seq<u8>)
    requires
        n <= mutations.len(),
        forall|i: int| 0 <= i < n ==> mutation_key(#[trigger] mutations[i]) != key,
    ensures
        apply_mutations(live, mutations, n).contains_key(key) == live.contains_key(key),
        live.contains_key(key) ==> apply_mutations(live, mutations, n)[key] == live[key],
    decreases n,
{
    if n > 0 {
        lemma_untouched(live, mutations, (n - 1) as nat, key);
        assert(mutation_key(mutations[n - 1]) != key);
    }
}

/// Staging a migration changes no record but its own: what it carries stays out of recovery until it is
/// committed.
pub proof fn lemma_stage_isolated(
    journal: JournalView,
    session_fence: Seq<u8>,
    fence: Seq<u8>,
    generation: u64,
    records: Seq<StableRecordView>,
    capsule: CapsuleView,
    key: Seq<u8>,
)
    requires
        journal.stage_writes(session_fence, fence, generation, records, capsule) is Ok,
        key != (encode_key(migration_key(capsule), journal.limits)->Ok_0).flat(),
    ensures
        ({
            let mutations = journal.stage_writes(session_fence, fence, generation, records, capsule)->Ok_0;
            let after = apply_mutations(journal.live, mutations, mutations.len());
            &&& after.contains_key(key) == journal.live.contains_key(key)
            &&& journal.live.contains_key(key) ==> after[key] == journal.live[key]
        }),
{
    reveal(put_change);
    let mutations = journal.stage_writes(session_fence, fence, generation, records, capsule)->Ok_0;
    assert(mutations.len() == 1);
    assert(mutation_key(mutations[0]) != key);
    lemma_untouched(journal.live, mutations, mutations.len(), key);
}

/// A migration that was staged counts as staged when it is offered again.
pub proof fn lemma_stage_repeats(
    journal: JournalView,
    session_fence: Seq<u8>,
    capsule: CapsuleView,
    plan: CommitPlan,
    generation: u64,
)
    requires
        journal.stage_checked(session_fence, capsule) is Ok,
        journal.stage_checked(session_fence, capsule)->Ok_0 is Fresh,
        plan.effect_of() is Capsule,
        (plan.effect_of()->Capsule_0)@ == journal.stage_checked(session_fence, capsule)->Ok_0->Fresh_0,
    ensures
        finished(journal, plan, generation).stage_checked(session_fence, capsule) == Ok::<StageView, StableJournalError>(
            StageView::Known(MigrationStageStatus::AlreadyStaged),
        ),
{
    let clean = journal.stage_checked(session_fence, capsule)->Ok_0->Fresh_0;
    let after = finished(journal, plan, generation);
    assert((plan.effect_of()->Capsule_0).transfer_id@ == clean.transfer_id);
    assert(after.migrations.contains_key(clean.transfer_id));
    assert(after.migrations[clean.transfer_id] == clean);
    assert(clean.phase == MigrationPhase::Staged);
}

/// An armed cutover is never undone: the migration can be neither committed, nor aborted, nor staged again.
pub proof fn lemma_cutover_irreversible(
    journal: JournalView,
    session_fence: Seq<u8>,
    transfer_id: Seq<u8>,
    capsule: CapsuleView,
)
    requires
        journal.migrations.contains_key(transfer_id),
        journal.migrations[transfer_id].phase == MigrationPhase::SourceMoved,
        capsule.transfer_id == transfer_id,
    ensures
        journal.commit_candidate(session_fence, transfer_id) is Err,
        journal.abort_writes(session_fence, transfer_id) is Err,
        journal.stage_checked(session_fence, capsule) is Err,
{
    if sanitize_capsule(journal.migrations[transfer_id], journal.limits) is Ok {
        assert((sanitize_capsule(journal.migrations[transfer_id], journal.limits)->Ok_0).phase
            == MigrationPhase::SourceMoved);
    }
    if sanitize_capsule(capsule, journal.limits) is Ok {
        let clean = sanitize_capsule(capsule, journal.limits)->Ok_0;
        assert(clean.transfer_id == transfer_id);
    }
}

/// A committed migration is not aborted.
pub proof fn lemma_committed_stays(journal: JournalView, session_fence: Seq<u8>, transfer_id: Seq<u8>)
    requires
        session_fence == journal.fence_token,
        journal.migrations.contains_key(transfer_id),
        journal.migrations[transfer_id].phase != MigrationPhase::Staged,
    ensures
        journal.abort_writes(session_fence, transfer_id) == Err::<Seq<MutationView>, StableJournalError>(
            StableJournalError::MigrationCommitted,
        ),
{
}

/// Arming a cutover again changes nothing.
pub proof fn lemma_arm_repeats(
    journal: JournalView,
    session_fence: Seq<u8>,
    capsule: CapsuleView,
    plan: CommitPlan,
    generation: u64,
)
    requires
        journal.arm_checked(session_fence, capsule) is Ok,
        journal.arm_checked(session_fence, capsule)->Ok_0 is Some,
        plan.effect_of() is Capsule,
        Some((plan.effect_of()->Capsule_0)@) == journal.arm_checked(session_fence, capsule)->Ok_0,
    ensures
        finished(journal, plan, generation).arm_checked(session_fence, capsule) == Ok::<
            Option<CapsuleView>,
            StableJournalError,
        >(None),
{
    let after = finished(journal, plan, generation);
    let marker = journal.arm_checked(session_fence, capsule)->Ok_0->0;
    assert((plan.effect_of()->Capsule_0).transfer_id@ == marker.transfer_id);
    assert(after.migrations.contains_key(capsule.transfer_id));
    assert(after.migrations[capsule.transfer_id] == marker);
}

/// The checks of a capsule hold of the same capsule without its records, in any phase.
proof fn lemma_emptied_valid(capsule: CapsuleView, phase: MigrationPhase, limits: StableJournalLimits)
    requires
        capsule_valid(capsule, checked(capsule.records, limits), limits) is Ok,
    ensures
        ({
            let emptied = CapsuleView { phase, records: seq![], ..capsule };
            &&& capsule_valid(emptied, checked(emptied.records, limits), limits) is Ok
            &&& sanitize_transfer(emptied.records, checked(emptied.records, limits), limits) == Ok::<
                (Seq<StableRecordView>, Seq<TypedView>),
                StableJournalError,
            >((seq![], seq![]))
        }),
{
    reveal(capsule_valid);
    reveal(snapshot_checked);
    reveal(sanitize_transfer);
    reveal(image_checked);
    let emptied = CapsuleView { phase, records: seq![], ..capsule };
    assert(sanitize_transfer(emptied.records, checked(emptied.records, limits), limits) == Ok::<
        (Seq<StableRecordView>, Seq<TypedView>),
        StableJournalError,
    >((seq![], seq![])));
    let none = Seq::<TypedView>::empty();
    assert(image_checked(none, capsule.export_id) is Ok);
}

/// Committing a migration again gives the same identities and changes nothing: its records are records of their
/// own by now.
pub proof fn lemma_commit_repeats(
    journal: JournalView,
    session_fence: Seq<u8>,
    transfer_id: Seq<u8>,
    plan: CommitPlan,
    generation: u64,
)
    requires
        journal.commit_candidate(session_fence, transfer_id) is Ok,
        ({
            let (staged, _) = journal.commit_candidate(session_fence, transfer_id)->Ok_0;
            &&& staged.transfer_id == transfer_id
            &&& plan.effect_of() is Capsule
            &&& (plan.effect_of()->Capsule_0)@ == committed_capsule(staged)
        }),
    ensures
        ({
            let (staged, _) = journal.commit_candidate(session_fence, transfer_id)->Ok_0;
            finished(journal, plan, generation).commit_candidate(session_fence, transfer_id) == Ok::<
                (CapsuleView, Seq<TypedView>),
                StableJournalError,
            >((committed_capsule(staged), seq![]))
        }),
{
    let (staged, _) = journal.commit_candidate(session_fence, transfer_id)->Ok_0;
    let after = finished(journal, plan, generation);
    let committed = committed_capsule(staged);
    assert((plan.effect_of()->Capsule_0).transfer_id@ == committed.transfer_id);
    assert(after.migrations[transfer_id] == committed);
    lemma_emptied_valid(staged, MigrationPhase::Committed, journal.limits);
    assert(crate::layout::with_records(committed, seq![]) =~= committed);
}

/// A run never reports a clean end of the run before it unless that run recorded one.
pub proof fn lemma_shutdown_reported(previous: Option<BootView>)
    ensures
        (shutdown_of(previous) == PreviousShutdown::Clean) == (previous is Some && previous->0.clean_shutdown),
        (shutdown_of(previous) == PreviousShutdown::FirstBoot) == (previous is None),
{
}

/// Later runs keep the server's identity and its handle key, offer the records of the run before for recovery, and
/// record that they did not end cleanly yet.
pub proof fn lemma_identity_kept(
    session_fence: Seq<u8>,
    generation: u64,
    records: Seq<StableRecordView>,
    decoded: DecodedView,
    fresh: FreshIdentity,
    started_at_unix_seconds: i64,
    limits: StableJournalLimits,
)
    requires
        records.len() != 0,
        startup_identity(decoded, false) is Ok,
        startup_writes(session_fence, generation, records, decoded, fresh, started_at_unix_seconds, limits) is Ok,
    ensures
        ({
            let (journal, mutations) = startup_writes(
                session_fence,
                generation,
                records,
                decoded,
                fresh,
                started_at_unix_seconds,
                limits,
            )->Ok_0;
            &&& decoded.server_identity == Some(journal.server_identity)
            &&& decoded.handle_key == Some(journal.handle_key)
            &&& journal.recovery.previous_boot == decoded.boot
            &&& journal.recovery.previous_shutdown == shutdown_of(decoded.boot)
            &&& journal.recovery.records == decoded.records
            &&& !journal.boot.clean_shutdown
            &&& mutations.len() == 1
        }),
{
    reveal_with_fuel(crate::journal::put_changes, 2);
}

/// What the typed forms of a transfer are, one by one.
proof fn lemma_transfer_typed(records: Seq<StableRecordView>, results: Seq<Transfer>, n: nat)
    requires
        transfer_typed(records, results, n) is Ok,
    ensures
        transfer_typed(records, results, n)->Ok_0.len() == n,
        forall|i: int|
            0 <= i < n ==> #[trigger] results[i] == Ok::<TypedView, StableJournalError>(
                transfer_typed(records, results, n)->Ok_0[i],
            ),
        forall|i: int, j: int|
            0 <= i < j < n ==> (#[trigger] records[i]).key != (#[trigger] records[j]).key,
    decreases n,
{
    if n > 0 {
        lemma_transfer_typed(records, results, (n - 1) as nat);
    }
}

/// The positions of the records that stay, among the first `n`.
spec fn kept(all: Seq<TypedView>, n: nat) -> Seq<int>
    decreases n,
{
    if n == 0 {
        seq![]
    } else if suppressed(all[n - 1].1, all) {
        kept(all, (n - 1) as nat)
    } else {
        kept(all, (n - 1) as nat).push(n - 1)
    }
}

/// What stays, by position.
proof fn lemma_kept(records: Seq<StableRecordView>, all: Seq<TypedView>, n: nat)
    requires
        n <= all.len(),
    ensures
        retained(all, n).len() == kept(all, n).len(),
        retained_stable(records, all, n).len() == kept(all, n).len(),
        forall|k: int|
            0 <= k < kept(all, n).len() ==> 0 <= #[trigger] kept(all, n)[k] < n && retained(all, n)[k]
                == all[kept(all, n)[k]] && retained_stable(records, all, n)[k] == records[kept(all, n)[k]] && !suppressed(
                all[kept(all, n)[k]].1,
                all,
            ),
        forall|k: int, l: int|
            0 <= k < l < kept(all, n).len() ==> (#[trigger] kept(all, n)[k]) < (#[trigger] kept(all, n)[l]),
        forall|j: int| 0 <= j < n && !suppressed((#[trigger] all[j]).1, all) ==> kept(all, n).contains(j),
    decreases n,
{
    if n > 0 {
        lemma_kept(records, all, (n - 1) as nat);
        let before = kept(all, (n - 1) as nat);
        let after = kept(all, n);
        assert forall|j: int| 0 <= j < n && !suppressed((#[trigger] all[j]).1, all) implies after.contains(j) by {
            if j == n - 1 {
                assert(after[after.len() - 1] == j);
            } else {
                assert(before.contains(j));
                let k = before.index_of(j);
                assert(after[k] == j);
            }
        }
    }
}

/// Where nothing is suppressed, everything stays.
proof fn lemma_all_stay(records: Seq<StableRecordView>, all: Seq<TypedView>, n: nat)
    requires
        n <= all.len(),
        n <= records.len(),
        forall|i: int| 0 <= i < all.len() ==> !suppressed((#[trigger] all[i]).1, all),
    ensures
        retained(all, n) == all.take(n as int),
        retained_stable(records, all, n) == records.take(n as int),
    decreases n,
{
    if n > 0 {
        lemma_all_stay(records, all, (n - 1) as nat);
        assert(all.take(n as int) =~= all.take(n - 1).push(all[n - 1]));
        assert(records.take(n as int) =~= records.take(n - 1).push(records[n - 1]));
    } else {
        assert(all.take(0) =~= seq![]);
        assert(records.take(0) =~= seq![]);
    }
}

/// Records with distinct keys that each have a typed form are transferred as those forms.
proof fn lemma_transfer_of(records: Seq<StableRecordView>, results: Seq<Transfer>, typed: Seq<TypedView>, n: nat)
    requires
        n <= records.len(),
        records.len() == results.len() == typed.len(),
        forall|i: int| 0 <= i < n ==> #[trigger] results[i] == Ok::<TypedView, StableJournalError>(typed[i]),
        forall|i: int, j: int|
            0 <= i < j < n ==> (#[trigger] records[i]).key != (#[trigger] records[j]).key,
    ensures
        transfer_typed(records, results, n) == Ok::<Seq<TypedView>, StableJournalError>(typed.take(n as int)),
    decreases n,
{
    if n > 0 {
        lemma_transfer_of(records, results, typed, (n - 1) as nat);
        assert(typed.take(n as int) =~= typed.take(n - 1).push(typed[n - 1]));
        assert(results[n - 1] == Ok::<TypedView, StableJournalError>(typed[n - 1]));
    } else {
        assert(typed.take(0) =~= seq![]);
    }
}

/// What stays of a transfer stays: sanitizing it again changes nothing.
pub proof fn lemma_sanitize_repeats(records: Seq<StableRecordView>, limits: StableJournalLimits)
    requires
        sanitize_transfer(records, checked(records, limits), limits) is Ok,
    ensures
        ({
            let (stable, typed) = sanitize_transfer(records, checked(records, limits), limits)->Ok_0;
            sanitize_transfer(stable, checked(stable, limits), limits) == Ok::<
                (Seq<StableRecordView>, Seq<TypedView>),
                StableJournalError,
            >((stable, typed))
        }),
{
    reveal(sanitize_transfer);
    let results = checked(records, limits);
    let all = transfer_typed(records, results, records.len())->Ok_0;
    lemma_transfer_typed(records, results, records.len());
    lemma_kept(records, all, all.len());
    let places = kept(all, all.len());
    let (stable, typed) = sanitize_transfer(records, results, limits)->Ok_0;
    let again = checked(stable, limits);
    assert forall|k: int| 0 <= k < stable.len() implies #[trigger] again[k] == Ok::<TypedView, StableJournalError>(
        typed[k],
    ) by {
        assert(0 <= places[k] < all.len());
        assert(results[places[k]] == Ok::<TypedView, StableJournalError>(all[places[k]]));
    }
    assert forall|k: int, l: int| 0 <= k < l < stable.len() implies (#[trigger] stable[k]).key != (
    #[trigger] stable[l]).key by {
        assert(places[k] < places[l]);
        assert(records[places[k]].key != records[places[l]].key);
    }
    lemma_transfer_of(stable, again, typed, stable.len());
    assert(typed.take(stable.len() as int) =~= typed);
    assert forall|k: int| 0 <= k < typed.len() implies !suppressed((#[trigger] typed[k]).1, typed) by {
        let j = places[k];
        assert(typed[k] == all[j]);
        assert(!suppressed(all[j].1, all));
        if let crate::record::RecordView::Delegation(delegation) = typed[k].1 {
            if exists|i: int| 0 <= i < typed.len() && revokes((#[trigger] typed[i]).1, delegation.state_token) {
                let i = choose|i: int|
                    0 <= i < typed.len() && revokes((#[trigger] typed[i]).1, delegation.state_token);
                assert(typed[i] == all[places[i]]);
                assert(revokes(all[places[i]].1, delegation.state_token));
            }
            let c = choose|i: int| 0 <= i < all.len() && confirmed_as((#[trigger] all[i]).1, delegation.client_id);
            assert(confirmed_as(all[c].1, delegation.client_id));
            assert(!suppressed(all[c].1, all));
            assert(places.contains(c));
            let at = places.index_of(c);
            assert(typed[at] == all[c]);
            assert(confirmed_as(typed[at].1, delegation.client_id));
        }
    }
    lemma_all_stay(stable, typed, typed.len());
    assert(typed.take(typed.len() as int) =~= typed);
    assert(stable.take(stable.len() as int) =~= stable);
}

} // verus!
