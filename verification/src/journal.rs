//! The durable journal: typed records behind fenced, generation-checked commits.
//!
//! The journal itself performs no I/O. Each operation that reaches the store is a plan: the mutations to
//! commit and the generation they expect. The caller commits them, has the outcome settled, and finishes the
//! plan; only then does the journal's own state change.

use vstd::prelude::*;

pub mod durable;
pub mod laws;
pub mod migration;
pub mod moving;
pub mod runs;
pub mod sound;
pub mod transaction;

use crate::bytemap::ByteMap;
use crate::bytes::{bytes_equal, copy_bytes};
use crate::commit::{
    apply_live_record_updates, apply_mutations, commit_verdict, mutation_views, mutations_fit, overlay,
    plan_live_record_updates, recovered_verdict, settle_commit, settle_recovered, updates_view, CommitVerdict,
    LiveRecordUpdates, MutationView, StableMutation,
};
use crate::entropy::{random_array, random_array_excluding, random_boot_tag};
use crate::error::{journal_error, StableJournalError, StableStateError};
use crate::layout::encode_key;
use crate::limits::{limits_usable, StableJournalLimits};
use crate::record::{
    key_reserved, record_views, BootRecord, BootView, CapsuleView, HandleKeyRecord, HandleKeyView, JournalKey,
    JournalRecord, KeyView, MigrationCapsuleRecord, RecordView, SchemaRecord, ServerIdentityRecord, StableKey,
    StableKeyView, StableRecordView, SCHEMA_VERSION,
};
use crate::snapshot::{
    capsules, cleanup_keys, decode_image, decode_snapshot, encode_pair, image_of, keys_distinct, option_view, payloads,
    stable_record_from_typed, stable_record_map, DecodedSnapshot, DecodedView, StableSnapshot,
};
use crate::transfer::{typed_views, TypedView};

verus! {

/// One typed change.
#[derive(Clone, PartialEq, Eq)]
pub enum JournalMutation {
    Put { key: JournalKey, record: JournalRecord },
    Delete { key: JournalKey },
}

/// What a typed change stands for.
#[verifier::ext_equal]
pub enum ChangeView {
    Put { key: KeyView, record: RecordView },
    Delete { key: KeyView },
}

impl View for JournalMutation {
    type V = ChangeView;

    open spec fn view(&self) -> ChangeView {
        match *self {
            JournalMutation::Put { key, record } => ChangeView::Put { key: key@, record: record@ },
            JournalMutation::Delete { key } => ChangeView::Delete { key: key@ },
        }
    }
}

/// Typed changes that become durable together.
pub struct PersistBatch {
    mutations: Vec<JournalMutation>,
}

impl View for PersistBatch {
    type V = Seq<ChangeView>;

    closed spec fn view(&self) -> Seq<ChangeView> {
        Seq::new(self.mutations@.len(), |i: int| self.mutations@[i]@)
    }
}

impl Default for PersistBatch {
    fn default() -> (batch: Self)
        ensures
            batch@ == Seq::<ChangeView>::empty(),
    {
        let batch = PersistBatch { mutations: Vec::new() };
        assert(batch@ =~= Seq::<ChangeView>::empty());
        batch
    }
}

impl PersistBatch {
    /// A batch of the given changes.
    pub fn new(mutations: Vec<JournalMutation>) -> (batch: Self)
        ensures
            batch@ == Seq::new(mutations@.len(), |i: int| mutations@[i]@),
    {
        PersistBatch { mutations }
    }

    /// The batch with one more record to write.
    pub fn put(self, key: JournalKey, record: JournalRecord) -> (batch: Self)
        ensures
            batch@ == self@.push(ChangeView::Put { key: key@, record: record@ }),
    {
        let ghost before = self@;
        let mut mutations = self.mutations;
        mutations.push(JournalMutation::Put { key, record });
        let batch = PersistBatch { mutations };
        assert(batch@ =~= before.push(ChangeView::Put { key: key@, record: record@ }));
        batch
    }

    /// The batch with one more record to delete.
    pub fn delete(self, key: JournalKey) -> (batch: Self)
        ensures
            batch@ == self@.push(ChangeView::Delete { key: key@ }),
    {
        let ghost before = self@;
        let mut mutations = self.mutations;
        mutations.push(JournalMutation::Delete { key });
        let batch = PersistBatch { mutations };
        assert(batch@ =~= before.push(ChangeView::Delete { key: key@ }));
        batch
    }

    /// Whether the batch changes nothing.
    pub fn is_empty(&self) -> (empty: bool)
        ensures
            empty == (self@.len() == 0),
    {
        self.mutations.len() == 0
    }

    /// The number of changes.
    pub fn len(&self) -> (count: usize)
        ensures
            count == self@.len(),
    {
        self.mutations.len()
    }

    /// One of the changes.
    pub fn mutation(&self, at: usize) -> (mutation: &JournalMutation)
        requires
            at < self@.len(),
        ensures
            mutation@ == self@[at as int],
    {
        &self.mutations[at]
    }
}

/// A commit that took effect.
#[derive(Clone, Copy, Debug, PartialEq, Eq, Structural)]
pub struct Persisted {
    pub generation: u64,
}

/// How the run before this one ended.
#[derive(Clone, Copy, Debug, PartialEq, Eq, Structural)]
pub enum PreviousShutdown {
    FirstBoot,
    Clean,
    Unclean,
}

/// What a run finds of the one before it.
pub struct RecoveredStableState {
    pub previous_shutdown: PreviousShutdown,
    pub previous_boot: Option<BootRecord>,
    pub records: Vec<(JournalKey, JournalRecord)>,
}

/// What recovered state stands for.
#[verifier::ext_equal]
pub struct RecoveredView {
    pub previous_shutdown: PreviousShutdown,
    pub previous_boot: Option<BootView>,
    pub records: Seq<TypedView>,
}

impl View for RecoveredStableState {
    type V = RecoveredView;

    open spec fn view(&self) -> RecoveredView {
        RecoveredView {
            previous_shutdown: self.previous_shutdown,
            previous_boot: option_view(self.previous_boot),
            records: typed_views(self.records@),
        }
    }
}

/// What else finishing a plan changes.
pub enum PlanEffect {
    /// Records only.
    Records,
    /// The journal's own boot record.
    Boot(BootRecord),
    /// A migration reaches a phase.
    Capsule(MigrationCapsuleRecord),
    /// A migration is forgotten.
    Release([u8; 16]),
}

/// What the store is asked to do.
#[derive(Clone, Copy, Debug, PartialEq, Eq, Structural)]
pub enum PlanKind {
    /// To commit the mutations.
    Commit,
    /// To checkpoint what it holds.
    Checkpoint,
}

/// A commit to be made: what it writes, and the generation on which it rests.
pub struct CommitPlan {
    pub kind: PlanKind,
    pub expected_generation: u64,
    pub mutations: Vec<StableMutation>,
    pub updates: LiveRecordUpdates,
    pub effect: PlanEffect,
}

impl CommitPlan {
    /// What finishing the plan lays over the live records.
    pub open spec fn overlay_of(&self) -> Map<Seq<u8>, Option<Seq<u8>>> {
        updates_view(self.updates@)
    }

    /// What else finishing the plan changes.
    pub open spec fn effect_of(&self) -> PlanEffect {
        self.effect
    }

    /// The plan writes those mutations on that state, and its overlay is what they amount to.
    pub open spec fn writes(&self, generation: u64, live: Map<Seq<u8>, Seq<u8>>, mutations: Seq<MutationView>) -> bool {
        &&& self.kind == PlanKind::Commit
        &&& self.expected_generation == generation
        &&& mutation_views(self.mutations@) == mutations
        &&& overlay(live, self.overlay_of()) == apply_mutations(live, mutations, mutations.len())
    }
}

/// What a journal stands for.
#[verifier::ext_equal]
pub struct JournalView {
    pub fence_token: Seq<u8>,
    pub generation: u64,
    pub limits: StableJournalLimits,
    pub live: Map<Seq<u8>, Seq<u8>>,
    pub server_identity: Seq<u8>,
    pub boot: BootView,
    pub handle_key: HandleKeyView,
    pub recovery: RecoveredView,
    pub migrations: Map<Seq<u8>, CapsuleView>,
}

/// The durable journal of one server.
pub struct StableJournal {
    fence_token: Vec<u8>,
    generation: u64,
    limits: StableJournalLimits,
    live_records: ByteMap<Vec<u8>>,
    server_identity: ServerIdentityRecord,
    boot: BootRecord,
    handle_key: HandleKeyRecord,
    recovery: RecoveredStableState,
    migrations: ByteMap<MigrationCapsuleRecord>,
}

impl View for StableJournal {
    type V = JournalView;

    closed spec fn view(&self) -> JournalView {
        JournalView {
            fence_token: self.fence_token@,
            generation: self.generation,
            limits: self.limits,
            live: payloads(self.live_records@),
            server_identity: self.server_identity@,
            boot: self.boot@,
            handle_key: self.handle_key@,
            recovery: self.recovery@,
            migrations: capsules(self.migrations@),
        }
    }
}

/// The identity records of an initialized image.
#[verifier::ext_equal]
pub struct IdentityView {
    pub server_identity: Seq<u8>,
    pub handle_key: HandleKeyView,
    pub boot: BootView,
}

/// The identity records that an initialized image must hold: the server's, its handle key and the last run.
pub open spec fn startup_identity(decoded: DecodedView, is_new: bool) -> Result<
    Option<IdentityView>,
    StableJournalError,
> {
    if is_new {
        Ok(None)
    } else if decoded.schema is None {
        Err(StableJournalError::Corrupt("initialized stable state is missing its schema record"))
    } else if decoded.schema->0.version != SCHEMA_VERSION {
        Err(StableJournalError::UnsupportedSchema(decoded.schema->0.version))
    } else if decoded.server_identity is None {
        Err(StableJournalError::Corrupt("initialized stable state is missing server identity"))
    } else if decoded.handle_key is None {
        Err(StableJournalError::Corrupt("initialized stable state is missing handle-key material"))
    } else if decoded.boot is None {
        Err(StableJournalError::Corrupt("initialized stable state is missing its boot record"))
    } else {
        Ok(
            Some(
                IdentityView {
                    server_identity: decoded.server_identity->0,
                    handle_key: decoded.handle_key->0,
                    boot: decoded.boot->0,
                },
            ),
        )
    }
}

/// What a run finds in a snapshot before it draws its own identity, or why it cannot start.
pub open spec fn startup_checked(
    session_fence: Seq<u8>,
    fence: Seq<u8>,
    records: Seq<StableRecordView>,
    limits: StableJournalLimits,
) -> Result<DecodedView, StableJournalError> {
    if !limits_usable(limits) {
        Err(StableJournalError::InvalidLimits)
    } else if fence != session_fence {
        Err(StableJournalError::Fenced)
    } else if records.len() > limits.max_records {
        Err(StableJournalError::LimitExceeded("stable record count"))
    } else {
        match decode_image(records, limits) {
            Err(e) => Err(e),
            Ok(decoded) => match startup_identity(decoded, records.len() == 0) {
                Err(e) => Err(e),
                Ok(_) => Ok(decoded),
            },
        }
    }
}

/// The mutation that writes a typed record, or why it cannot be written.
#[verifier::opaque]
pub open spec fn put_change(key: KeyView, record: RecordView, limits: StableJournalLimits) -> Result<
    MutationView,
    StableJournalError,
> {
    match encode_pair(key, record, limits) {
        Err(e) => Err(e),
        Ok(stored) => Ok(MutationView::Put { key: stored.key, payload: stored.payload }),
    }
}

/// The mutation that writes a typed record.
pub fn put_mutation(key: &JournalKey, record: &JournalRecord, limits: StableJournalLimits) -> (mutation: Result<
    StableMutation,
    StableJournalError,
>)
    ensures
        match mutation {
            Ok(m) => put_change(key@, record@, limits) == Ok::<MutationView, StableJournalError>(m@),
            Err(e) => put_change(key@, record@, limits) == Err::<MutationView, StableJournalError>(e),
        },
{
    proof {
        reveal(put_change);
    }
    let stored = stable_record_from_typed(key, record, limits)?;
    Ok(StableMutation::Put { key: stored.key, payload: stored.payload })
}

/// The typed records that a run writes when it starts: all identities on the first run, else its boot record.
pub open spec fn startup_records(is_new: bool, identity: Seq<u8>, handle_key: HandleKeyView, boot: BootView) -> Seq<
    TypedView,
> {
    let own = (KeyView::Boot, RecordView::Boot(boot));
    if is_new {
        seq![
            (KeyView::Schema, RecordView::Schema(SchemaRecord { version: SCHEMA_VERSION })),
            (KeyView::ServerIdentity, RecordView::ServerIdentity(identity)),
            (KeyView::HandleKey, RecordView::HandleKey(handle_key)),
            own,
        ]
    } else {
        seq![own]
    }
}

/// The mutations that write the first `n` typed records.
pub open spec fn put_changes(records: Seq<TypedView>, limits: StableJournalLimits, n: nat) -> Result<
    Seq<MutationView>,
    StableJournalError,
>
    decreases n,
{
    if n == 0 {
        Ok(seq![])
    } else {
        match put_changes(records, limits, (n - 1) as nat) {
            Err(e) => Err(e),
            Ok(done) => match put_change(records[n - 1].0, records[n - 1].1, limits) {
                Err(e) => Err(e),
                Ok(one) => Ok(done.push(one)),
            },
        }
    }
}

/// How the run before this one ended.
pub open spec fn shutdown_of(previous: Option<BootView>) -> PreviousShutdown {
    match previous {
        None => PreviousShutdown::FirstBoot,
        Some(boot) => if boot.clean_shutdown {
            PreviousShutdown::Clean
        } else {
            PreviousShutdown::Unclean
        },
    }
}

/// A run that is starting: its identity is drawn, and its first commit is planned.
pub struct Startup {
    journal: StableJournal,
    plan: CommitPlan,
    cleanup: Vec<JournalKey>,
    pending: Vec<StableKey>,
}

impl Startup {
    /// The journal as it will be once the first commit has taken effect.
    pub closed spec fn journal_of(&self) -> JournalView {
        self.journal@
    }

    /// The first commit.
    pub closed spec fn plan_of(&self) -> CommitPlan {
        self.plan
    }

    /// The keys of records that the image no longer carries.
    pub closed spec fn cleanup_of(&self) -> Seq<KeyView> {
        Seq::new(self.cleanup@.len(), |i: int| self.cleanup@[i]@)
    }

    /// The storage keys that are still to be deleted, in key order.
    pub closed spec fn pending_of(&self) -> Seq<StableKeyView> {
        Seq::new(self.pending@.len(), |i: int| self.pending@[i]@)
    }

    /// The first commit.
    pub fn plan(&self) -> (plan: &CommitPlan)
        ensures
            *plan == self.plan_of(),
    {
        &self.plan
    }

    /// Judges the outcome of the first commit.
    pub fn settle(&self, session_fence: &[u8], result: Result<u64, StableStateError>) -> (verdict: CommitVerdict)
        ensures
            verdict == commit_verdict(
                session_fence@,
                self.journal_of().fence_token,
                self.plan_of().expected_generation,
                result,
            ),
    {
        settle_commit(session_fence, self.journal.fence_token.as_slice(), self.plan.expected_generation, result)
    }

    /// Judges the first commit by the image that was recovered after it.
    pub fn settle_recovered(
        &self,
        commit_error: StableStateError,
        recovered: Result<StableSnapshot, StableStateError>,
    ) -> (settled: Result<u64, StableJournalError>)
        ensures
            settled == self.journal_of().recovered(self.plan_of(), commit_error, recovered),
    {
        self.journal.settle_recovered(&self.plan, commit_error, recovered)
    }

    /// Takes over the first commit and lists what is to be cleaned up.
    pub fn finish_boot(self, generation: u64) -> (started: Result<Startup, StableJournalError>)
        ensures
            match started {
                Ok(s) => {
                    &&& s.journal_of() == (JournalView {
                        generation,
                        live: overlay(self.journal_of().live, self.plan_of().overlay_of()),
                        ..self.journal_of()
                    })
                    &&& cleanup_encoded(
                        self.cleanup_of(),
                        self.journal_of().limits,
                        self.cleanup_of().len(),
                    ) is Ok
                    &&& forall|k: StableKeyView|
                        s.pending_of().contains(k) <==> cleanup_encoded(
                            self.cleanup_of(),
                            self.journal_of().limits,
                            self.cleanup_of().len(),
                        )->Ok_0.contains(k)
                    &&& crate::bytemap::strictly_sorted(
                        Seq::new(s.pending_of().len(), |i: int| s.pending_of()[i].flat()),
                    )
                },
                Err(e) => cleanup_encoded(self.cleanup_of(), self.journal_of().limits, self.cleanup_of().len())
                    == Err::<Seq<StableKeyView>, StableJournalError>(e),
            },
    {
        let ghost before = self;
        let Startup { mut journal, plan, cleanup, pending: _ } = self;
        apply_live_record_updates(&mut journal.live_records, &plan.updates);
        journal.generation = generation;
        let pending = encode_cleanup(&cleanup, journal.limits)?;
        let started = Startup { journal, plan, cleanup: Vec::new(), pending };
        assert(started.journal_of() =~= (JournalView {
            generation,
            live: overlay(before.journal_of().live, before.plan_of().overlay_of()),
            ..before.journal_of()
        }));
        Ok(started)
    }

    /// The next batch of deletions, where one is left.
    pub fn next_cleanup(&self) -> (plan: Result<Option<CommitPlan>, StableJournalError>)
        requires
            self.journal_of().limits.max_batch_mutations > 0,
        ensures
            ({
                let count = if self.pending_of().len() <= self.journal_of().limits.max_batch_mutations {
                    self.pending_of().len() as int
                } else {
                    self.journal_of().limits.max_batch_mutations as int
                };
                let deletions = Seq::new(count as nat, |i: int| MutationView::Delete { key: self.pending_of()[i] });
                if count == 0 {
                    plan == Ok::<Option<CommitPlan>, StableJournalError>(None)
                } else if mutations_fit(self.journal_of().live, deletions, self.journal_of().limits.max_records) {
                    plan is Ok && plan->Ok_0 is Some && plan->Ok_0->0.writes(
                        self.journal_of().generation,
                        self.journal_of().live,
                        deletions,
                    ) && plan->Ok_0->0.effect_of() is Records
                } else {
                    plan == Err::<Option<CommitPlan>, StableJournalError>(
                        StableJournalError::LimitExceeded("stable record count"),
                    )
                }
            }),
    {
        if self.pending.len() == 0 {
            return Ok(None);
        }
        let count: usize = if self.pending.len() <= self.journal.limits.max_batch_mutations {
            self.pending.len()
        } else {
            self.journal.limits.max_batch_mutations
        };
        let mut mutations: Vec<StableMutation> = Vec::new();
        let mut i: usize = 0;
        while i < count
            invariant
                i <= count <= self.pending@.len(),
                mutations@.len() == i,
                forall|j: int|
                    0 <= j < i ==> (#[trigger] mutations@[j])@ == (MutationView::Delete { key: self.pending@[j]@ }),
            decreases count - i,
        {
            mutations.push(StableMutation::Delete { key: self.pending[i].copy() });
            i += 1;
        }
        let ghost deletions = Seq::new(count as nat, |i: int| MutationView::Delete { key: self.pending_of()[i] });
        assert(mutation_views(mutations@) =~= deletions);
        let updates = plan_live_record_updates(
            &self.journal.live_records,
            &mutations,
            self.journal.limits.max_records,
        )?;
        Ok(
            Some(
                CommitPlan {
                    kind: PlanKind::Commit,
                    expected_generation: self.journal.generation,
                    mutations,
                    updates,
                    effect: PlanEffect::Records,
                },
            ),
        )
    }

    /// Takes over a batch of deletions.
    pub fn finish_cleanup(&mut self, plan: CommitPlan, generation: u64)
        requires
            plan.mutations@.len() <= old(self).pending_of().len(),
            plan.effect_of() is Records,
        ensures
            final(self).journal_of() == (JournalView {
                generation,
                live: overlay(old(self).journal_of().live, plan.overlay_of()),
                ..old(self).journal_of()
            }),
            final(self).pending_of() == old(self).pending_of().skip(plan.mutations@.len() as int),
            final(self).plan_of() == old(self).plan_of(),
    {
        let count: usize = plan.mutations.len();
        let ghost keys = self.pending@;
        let mut rest: Vec<StableKey> = Vec::new();
        let mut i: usize = count;
        while i < self.pending.len()
            invariant
                count <= i <= self.pending@.len(),
                self.pending@ == keys,
                rest@.len() == i - count,
                forall|j: int| 0 <= j < rest@.len() ==> (#[trigger] rest@[j])@ == keys[j + count]@,
                *self == *old(self),
            decreases self.pending@.len() - i,
        {
            rest.push(self.pending[i].copy());
            i += 1;
        }
        self.pending = rest;
        apply_live_record_updates(&mut self.journal.live_records, &plan.updates);
        self.journal.generation = generation;
        assert(self.pending_of() =~= old(self).pending_of().skip(count as int));
        assert(self.journal_of() =~= (JournalView {
            generation,
            live: overlay(old(self).journal_of().live, plan.overlay_of()),
            ..old(self).journal_of()
        }));
    }

    /// Judges the outcome of a batch of deletions.
    pub fn settle_cleanup(&self, plan: &CommitPlan, session_fence: &[u8], result: Result<u64, StableStateError>) -> (verdict:
        CommitVerdict)
        ensures
            verdict == commit_verdict(
                session_fence@,
                self.journal_of().fence_token,
                plan.expected_generation,
                result,
            ),
    {
        settle_commit(session_fence, self.journal.fence_token.as_slice(), plan.expected_generation, result)
    }

    /// Judges a batch of deletions by the image that was recovered after it.
    pub fn settle_cleanup_recovered(
        &self,
        plan: &CommitPlan,
        commit_error: StableStateError,
        recovered: Result<StableSnapshot, StableStateError>,
    ) -> (settled: Result<u64, StableJournalError>)
        ensures
            settled == self.journal_of().recovered(*plan, commit_error, recovered),
    {
        self.journal.settle_recovered(plan, commit_error, recovered)
    }

    /// The running journal.
    pub fn into_journal(self) -> (journal: StableJournal)
        ensures
            journal@ == self.journal_of(),
    {
        self.journal
    }
}

/// The storage keys of the first `n` keys.
pub open spec fn cleanup_encoded(keys: Seq<KeyView>, limits: StableJournalLimits, n: nat) -> Result<
    Seq<StableKeyView>,
    StableJournalError,
>
    decreases n,
{
    if n == 0 {
        Ok(seq![])
    } else {
        match cleanup_encoded(keys, limits, (n - 1) as nat) {
            Err(e) => Err(e),
            Ok(done) => match encode_key(keys[n - 1], limits) {
                Err(e) => Err(e),
                Ok(one) => Ok(done.push(one)),
            },
        }
    }
}

/// A fault among the first keys is a fault of them all.
proof fn lemma_cleanup_fault(keys: Seq<KeyView>, limits: StableJournalLimits, n: nat, m: nat)
    requires
        n <= m,
        cleanup_encoded(keys, limits, n) is Err,
    ensures
        cleanup_encoded(keys, limits, m) == cleanup_encoded(keys, limits, n),
    decreases m - n,
{
    if n < m {
        lemma_cleanup_fault(keys, limits, n, (m - 1) as nat);
    }
}

/// The storage keys of typed keys, in key order and each once.
fn encode_cleanup(keys: &Vec<JournalKey>, limits: StableJournalLimits) -> (encoded: Result<
    Vec<StableKey>,
    StableJournalError,
>)
    ensures
        ({
            let views = Seq::new(keys@.len(), |i: int| keys@[i]@);
            match encoded {
                Ok(found) => {
                    let list = Seq::new(found@.len(), |i: int| found@[i]@);
                    &&& cleanup_encoded(views, limits, views.len()) is Ok
                    &&& forall|k: StableKeyView|
                        list.contains(k) <==> cleanup_encoded(views, limits, views.len())->Ok_0.contains(k)
                    &&& crate::bytemap::strictly_sorted(Seq::new(list.len(), |i: int| list[i].flat()))
                },
                Err(e) => cleanup_encoded(views, limits, views.len()) == Err::<Seq<StableKeyView>, StableJournalError>(e),
            }
        }),
{
    let ghost views = Seq::new(keys@.len(), |i: int| keys@[i]@);
    let mut map: ByteMap<StableKey> = ByteMap::new();
    let ghost mut done: Seq<StableKeyView> = seq![];
    let mut i: usize = 0;
    while i < keys.len()
        invariant
            i <= keys.len(),
            views == Seq::new(keys@.len(), |i: int| keys@[i]@),
            cleanup_encoded(views, limits, i as nat) == Ok::<Seq<StableKeyView>, StableJournalError>(done),
            forall|f: Seq<u8>| #[trigger] map@.contains_key(f) ==> map@[f]@.flat() == f && done.contains(map@[f]@),
            forall|k: StableKeyView| #[trigger] done.contains(k) ==> map@.contains_key(k.flat()),
        decreases keys.len() - i,
    {
        match keys[i].encode(limits) {
            Ok(stored) => {
                let ghost view = stored@;
                let ghost before = map@;
                let ghost old_done = done;
                let flat = stored.flat();
                let _ = map.insert(flat, stored);
                proof {
                    done = done.push(view);
                    assert forall|k: StableKeyView| #[trigger] done.contains(k) implies map@.contains_key(k.flat()) by {
                        let at = done.index_of(k);
                        assert(done[at] == k);
                        if at < old_done.len() {
                            assert(old_done[at] == k);
                            assert(old_done.contains(k));
                        }
                    }
                    assert forall|f: Seq<u8>| #[trigger] map@.contains_key(f) implies map@[f]@.flat() == f && done.contains(
                        map@[f]@,
                    ) by {
                        if f == view.flat() {
                            assert(done[done.len() - 1] == view);
                        } else {
                            assert(before.contains_key(f));
                            let at = old_done.index_of(before[f]@);
                            assert(old_done[at] == before[f]@);
                            assert(done[at] == before[f]@);
                        }
                    }
                }
            },
            Err(e) => {
                proof {
                    lemma_cleanup_fault(views, limits, (i + 1) as nat, views.len());
                }
                return Err(e);
            },
        }
        i += 1;
    }
    map.order_known();
    let count: usize = map.len();
    let mut list: Vec<StableKey> = Vec::new();
    let mut n: usize = 0;
    while n < count
        invariant
            n <= count,
            count == map.keys().len(),
            map.keys().len() == map.values().len(),
            list@.len() == n,
            forall|j: int| 0 <= j < n ==> (#[trigger] list@[j])@ == map.values()[j]@,
        decreases count - n,
    {
        list.push(map.value_at(n).copy());
        n += 1;
    }
    proof {
        let found = Seq::new(list@.len(), |i: int| list@[i]@);
        let flats = Seq::new(found.len(), |i: int| found[i].flat());
        assert forall|j: int| 0 <= j < count implies #[trigger] found[j] == map@[map.keys()[j]]@ && found[j].flat()
            == map.keys()[j] by {
            assert(list@[j]@ == map.values()[j]@);
            assert(map@.contains_key(map.keys()[j]));
        }
        assert(flats =~= map.keys());
        assert forall|k: StableKeyView| found.contains(k) <==> done.contains(k) by {
            if found.contains(k) {
                let at = found.index_of(k);
                assert(found[at] == k);
                assert(map@.contains_key(map.keys()[at]));
            }
            if done.contains(k) {
                assert(map@.contains_key(k.flat()));
                assert(map.keys().contains(k.flat()));
                let at = map.keys().index_of(k.flat());
                assert(map.keys()[at] == k.flat());
                assert(found[at].flat() == k.flat());
                crate::record::lemma_flat_injective(found[at], k);
            }
        }
    }
    Ok(list)
}

impl JournalView {
    /// What the recovered image says of a plan whose outcome was uncertain.
    pub open spec fn recovered(
        self,
        plan: CommitPlan,
        commit_error: StableStateError,
        recovered: Result<StableSnapshot, StableStateError>,
    ) -> Result<u64, StableJournalError> {
        match recovered {
            Err(e) => Err(journal_error(e)),
            Ok(snapshot) => recovered_verdict(
                self.fence_token,
                plan.expected_generation,
                self.live,
                plan.overlay_of(),
                self.limits,
                commit_error,
                snapshot.fence_token@,
                snapshot.generation,
                record_views(snapshot.records@),
            ),
        }
    }

    /// A commit of those mutations may be made: the session still holds the fence, and the records fit.
    pub open spec fn commit_checked(self, session_fence: Seq<u8>, mutations: Seq<MutationView>) -> Result<
        (),
        StableJournalError,
    > {
        if session_fence != self.fence_token {
            Err(StableJournalError::Fenced)
        } else if !mutations_fit(self.live, mutations, self.limits.max_records) {
            Err(StableJournalError::LimitExceeded("stable record count"))
        } else {
            Ok(())
        }
    }

    /// What a typed batch writes, or why it is refused.
    pub open spec fn persist_checked(self, session_fence: Seq<u8>, batch: Seq<ChangeView>) -> Result<
        Seq<MutationView>,
        StableJournalError,
    > {
        if batch.len() == 0 {
            Err(StableJournalError::EmptyBatch)
        } else if batch.len() > self.limits.max_batch_mutations {
            Err(StableJournalError::LimitExceeded("stable mutation batch"))
        } else if session_fence != self.fence_token {
            Err(StableJournalError::Fenced)
        } else {
            match encode_batch(batch, self.limits, batch.len()) {
                Err(e) => Err(e),
                Ok(mutations) => match self.commit_checked(session_fence, mutations) {
                    Err(e) => Err(e),
                    Ok(_) => Ok(mutations),
                },
            }
        }
    }

    /// What recording a clean end of this run writes.
    pub open spec fn clean_writes(self, session_fence: Seq<u8>) -> Result<Seq<MutationView>, StableJournalError> {
        let clean = BootView { clean_shutdown: true, ..self.boot };
        match put_change(KeyView::Boot, RecordView::Boot(clean), self.limits) {
            Err(e) => Err(e),
            Ok(one) => match self.commit_checked(session_fence, seq![one]) {
                Err(e) => Err(e),
                Ok(_) => Ok(seq![one]),
            },
        }
    }
}

/// What a typed batch writes, among its first `n` changes.
pub open spec fn encode_batch(batch: Seq<ChangeView>, limits: StableJournalLimits, n: nat) -> Result<
    Seq<MutationView>,
    StableJournalError,
>
    decreases n,
{
    if n == 0 {
        Ok(seq![])
    } else {
        match encode_batch(batch, limits, (n - 1) as nat) {
            Err(e) => Err(e),
            Ok(done) => match batch[n - 1] {
                ChangeView::Put { key, record } => if key_reserved(key) {
                    Err(StableJournalError::ReservedRecord)
                } else {
                    match put_change(key, record, limits) {
                        Err(e) => Err(e),
                        Ok(one) => Ok(done.push(one)),
                    }
                },
                ChangeView::Delete { key } => if key_reserved(key) {
                    Err(StableJournalError::ReservedRecord)
                } else {
                    match encode_key(key, limits) {
                        Err(e) => Err(e),
                        Ok(stored) => Ok(done.push(MutationView::Delete { key: stored })),
                    }
                },
            },
        }
    }
}

/// A fault among the first changes is a fault of them all.
proof fn lemma_batch_fault(batch: Seq<ChangeView>, limits: StableJournalLimits, n: nat, m: nat)
    requires
        n <= m,
        encode_batch(batch, limits, n) is Err,
    ensures
        encode_batch(batch, limits, m) == encode_batch(batch, limits, n),
    decreases m - n,
{
    if n < m {
        lemma_batch_fault(batch, limits, n, (m - 1) as nat);
    }
}

/// Writes one typed change.
fn encode_change(change: &JournalMutation, limits: StableJournalLimits) -> (mutation: Result<
    StableMutation,
    StableJournalError,
>)
    ensures
        match change@ {
            ChangeView::Put { key, record } => if key_reserved(key) {
                mutation == Err::<StableMutation, StableJournalError>(StableJournalError::ReservedRecord)
            } else {
                match put_change(key, record, limits) {
                    Err(e) => mutation == Err::<StableMutation, StableJournalError>(e),
                    Ok(one) => mutation is Ok && mutation->Ok_0@ == one,
                }
            },
            ChangeView::Delete { key } => if key_reserved(key) {
                mutation == Err::<StableMutation, StableJournalError>(StableJournalError::ReservedRecord)
            } else {
                match encode_key(key, limits) {
                    Err(e) => mutation == Err::<StableMutation, StableJournalError>(e),
                    Ok(stored) => mutation is Ok && mutation->Ok_0@ == (MutationView::Delete { key: stored }),
                }
            },
        },
{
    match change {
        JournalMutation::Put { key, record } => {
            if key.is_reserved() {
                return Err(StableJournalError::ReservedRecord);
            }
            put_mutation(key, record, limits)
        },
        JournalMutation::Delete { key } => {
            if key.is_reserved() {
                return Err(StableJournalError::ReservedRecord);
            }
            let stored = key.encode(limits)?;
            Ok(StableMutation::Delete { key: stored })
        },
    }
}

/// Writes a typed batch.
fn encode_changes(batch: &PersistBatch, limits: StableJournalLimits) -> (mutations: Result<
    Vec<StableMutation>,
    StableJournalError,
>)
    ensures
        match mutations {
            Ok(m) => encode_batch(batch@, limits, batch@.len()) == Ok::<Seq<MutationView>, StableJournalError>(
                mutation_views(m@),
            ),
            Err(e) => encode_batch(batch@, limits, batch@.len()) == Err::<Seq<MutationView>, StableJournalError>(e),
        },
{
    let ghost views = batch@;
    let mut encoded: Vec<StableMutation> = Vec::new();
    assert(mutation_views(encoded@) =~= Seq::<MutationView>::empty());
    let mut i: usize = 0;
    while i < batch.mutations.len()
        invariant
            i <= batch.mutations@.len(),
            views == batch@,
            encode_batch(views, limits, i as nat) == Ok::<Seq<MutationView>, StableJournalError>(
                mutation_views(encoded@),
            ),
        decreases batch.mutations@.len() - i,
    {
        assert(views[i as int] == batch.mutations@[i as int]@);
        let ghost before = encoded@;
        match encode_change(&batch.mutations[i], limits) {
            Ok(one) => {
                encoded.push(one);
                assert(mutation_views(encoded@) =~= mutation_views(before).push(one@));
            },
            Err(e) => {
                proof {
                    lemma_batch_fault(views, limits, (i + 1) as nat, views.len());
                }
                return Err(e);
            },
        }
        i += 1;
    }
    Ok(encoded)
}

/// The result of planning stands for `expected`: the writes, on the journal's state, or the same error.
pub open spec fn planned(
    result: Result<CommitPlan, StableJournalError>,
    journal: JournalView,
    expected: Result<Seq<MutationView>, StableJournalError>,
) -> bool {
    match expected {
        Ok(mutations) => result is Ok && result->Ok_0.writes(journal.generation, journal.live, mutations),
        Err(e) => result == Err::<CommitPlan, StableJournalError>(e),
    }
}

/// The journal after a plan has taken effect.
pub open spec fn finished(journal: JournalView, plan: CommitPlan, generation: u64) -> JournalView {
    JournalView {
        generation,
        live: overlay(journal.live, plan.overlay_of()),
        boot: match plan.effect_of() {
            PlanEffect::Boot(boot) => boot@,
            _ => journal.boot,
        },
        migrations: match plan.effect_of() {
            PlanEffect::Capsule(capsule) => journal.migrations.insert(capsule.transfer_id@, capsule@),
            PlanEffect::Release(id) => journal.migrations.remove(id@),
            _ => journal.migrations,
        },
        ..journal
    }
}

/// The identities that a run draws when it starts.
pub struct FreshIdentity {
    pub server_identity: [u8; 16],
    pub instance_id: [u8; 8],
    pub secret: [u8; 32],
    pub verifier: [u8; 8],
    pub boot_tag: u32,
}

/// What a run starts as, once its identities are drawn: the journal to be and the mutations of its first
/// commit, or why the commit cannot be made.
pub open spec fn startup_writes(
    session_fence: Seq<u8>,
    generation: u64,
    records: Seq<StableRecordView>,
    decoded: DecodedView,
    fresh: FreshIdentity,
    started_at_unix_seconds: i64,
    limits: StableJournalLimits,
) -> Result<(JournalView, Seq<MutationView>), StableJournalError> {
    let is_new = records.len() == 0;
    let found = startup_identity(decoded, is_new)->Ok_0;
    let identity = if found is Some {
        (found->0).server_identity
    } else {
        fresh.server_identity@
    };
    let handle_key = if found is Some {
        (found->0).handle_key
    } else {
        HandleKeyView { instance_id: fresh.instance_id@, secret: fresh.secret@ }
    };
    let previous = if found is Some {
        Some((found->0).boot)
    } else {
        None
    };
    let boot = BootView {
        verifier: fresh.verifier@,
        boot_tag: fresh.boot_tag,
        started_at_unix_seconds,
        clean_shutdown: false,
    };
    let writes = startup_records(is_new, identity, handle_key, boot);
    let live = image_of(records, records.len());
    match put_changes(writes, limits, writes.len()) {
        Err(e) => Err(e),
        Ok(mutations) => if !keys_distinct(records) {
            Err(StableJournalError::Corrupt("duplicate stable storage key"))
        } else if !mutations_fit(live, mutations, limits.max_records) {
            Err(StableJournalError::LimitExceeded("stable record count"))
        } else {
            Ok(
                (
                    JournalView {
                        fence_token: session_fence,
                        generation,
                        limits,
                        live,
                        server_identity: identity,
                        boot,
                        handle_key,
                        recovery: RecoveredView {
                            previous_shutdown: shutdown_of(previous),
                            previous_boot: previous,
                            records: if is_new {
                                seq![]
                            } else {
                                decoded.records
                            },
                        },
                        migrations: decoded.migrations,
                    },
                    mutations,
                ),
            )
        },
    }
}

/// Decodes the snapshot on which a run starts.
pub fn check_startup(session_fence: &[u8], snapshot: &StableSnapshot, limits: StableJournalLimits) -> (decoded: Result<
    DecodedSnapshot,
    StableJournalError,
>)
    ensures
        match startup_checked(session_fence@, snapshot.fence_token@, record_views(snapshot.records@), limits) {
            Err(e) => decoded == Err::<DecodedSnapshot, StableJournalError>(e),
            Ok(view) => {
                &&& decoded is Ok
                &&& decoded->Ok_0@ == view
                &&& Seq::new(decoded->Ok_0.legacy_cleanup_keys@.len(), |i: int| decoded->Ok_0.legacy_cleanup_keys@[i]@)
                    == cleanup_keys(record_views(snapshot.records@), limits)
            },
        },
{
    let limits = limits.validate()?;
    if !bytes_equal(snapshot.fence_token.as_slice(), session_fence) {
        return Err(StableJournalError::Fenced);
    }
    if snapshot.records.len() > limits.max_records {
        return Err(StableJournalError::LimitExceeded("stable record count"));
    }
    let decoded = decode_snapshot(&snapshot.records, limits)?;
    if snapshot.records.len() != 0 {
        match decoded.schema {
            None => {
                return Err(StableJournalError::Corrupt("initialized stable state is missing its schema record"));
            },
            Some(schema) => {
                if schema.version != SCHEMA_VERSION {
                    return Err(StableJournalError::UnsupportedSchema(schema.version));
                }
            },
        }
        if decoded.server_identity.is_none() {
            return Err(StableJournalError::Corrupt("initialized stable state is missing server identity"));
        }
        if decoded.handle_key.is_none() {
            return Err(StableJournalError::Corrupt("initialized stable state is missing handle-key material"));
        }
        if decoded.boot.is_none() {
            return Err(StableJournalError::Corrupt("initialized stable state is missing its boot record"));
        }
    }
    proof {
        let list = Seq::new(decoded.legacy_cleanup_keys@.len(), |i: int| decoded.legacy_cleanup_keys@[i]@);
        assert(list =~= cleanup_keys(record_views(snapshot.records@), limits));
    }
    Ok(decoded)
}

/// Writes the identity records of a starting run.
fn startup_mutations(
    is_new: bool,
    server_identity: ServerIdentityRecord,
    handle_key: HandleKeyRecord,
    boot: BootRecord,
    limits: StableJournalLimits,
) -> (mutations: Result<Vec<StableMutation>, StableJournalError>)
    ensures
        ({
            let writes = startup_records(is_new, server_identity@, handle_key@, boot@);
            match mutations {
                Ok(m) => put_changes(writes, limits, writes.len()) == Ok::<Seq<MutationView>, StableJournalError>(
                    mutation_views(m@),
                ),
                Err(e) => put_changes(writes, limits, writes.len()) == Err::<Seq<MutationView>, StableJournalError>(e),
            }
        }),
{
    let ghost writes = startup_records(is_new, server_identity@, handle_key@, boot@);
    proof {
        reveal_with_fuel(put_changes, 5);
    }
    let mut list: Vec<StableMutation> = Vec::new();
    assert(mutation_views(list@) =~= Seq::<MutationView>::empty());
    if is_new {
        let schema = put_mutation(
            &JournalKey::Schema,
            &JournalRecord::Schema(SchemaRecord { version: SCHEMA_VERSION }),
            limits,
        )?;
        list.push(schema);
        assert(mutation_views(list@) =~= seq![schema@]);
        let identity = put_mutation(
            &JournalKey::ServerIdentity,
            &JournalRecord::ServerIdentity(server_identity),
            limits,
        )?;
        list.push(identity);
        assert(mutation_views(list@) =~= seq![schema@, identity@]);
        let key = put_mutation(&JournalKey::HandleKey, &JournalRecord::HandleKey(handle_key), limits)?;
        list.push(key);
        assert(mutation_views(list@) =~= seq![schema@, identity@, key@]);
        assert(seq![schema@].push(identity@) =~= seq![schema@, identity@]);
        assert(seq![schema@, identity@].push(key@) =~= seq![schema@, identity@, key@]);
        assert(Seq::<MutationView>::empty().push(schema@) =~= seq![schema@]);
    }
    let ghost before = list@;
    let own = put_mutation(&JournalKey::Boot, &JournalRecord::Boot(boot), limits)?;
    list.push(own);
    assert(mutation_views(list@) =~= mutation_views(before).push(own@));
    Ok(list)
}

impl StableJournal {
    /// Starts a run on a recovered snapshot: draws its identities and plans its first commit.
    pub fn initialize(
        session_fence: &[u8],
        snapshot: StableSnapshot,
        started_at_unix_seconds: i64,
        limits: StableJournalLimits,
    ) -> (startup: Result<Startup, StableJournalError>)
        ensures
            match startup_checked(session_fence@, snapshot.fence_token@, record_views(snapshot.records@), limits) {
                Err(e) => startup == Err::<Startup, StableJournalError>(e),
                Ok(decoded) => match startup {
                    Err(e) => e is Entropy || exists|fresh: FreshIdentity|
                        startup_writes(
                            session_fence@,
                            snapshot.generation,
                            record_views(snapshot.records@),
                            decoded,
                            fresh,
                            started_at_unix_seconds,
                            limits,
                        ) == Err::<(JournalView, Seq<MutationView>), StableJournalError>(e),
                    Ok(s) => exists|fresh: FreshIdentity|
                        starts_as(
                            s,
                            startup_writes(
                                session_fence@,
                                snapshot.generation,
                                record_views(snapshot.records@),
                                decoded,
                                fresh,
                                started_at_unix_seconds,
                                limits,
                            ),
                            cleanup_keys(record_views(snapshot.records@), limits),
                        ) && fresh_for(fresh, decoded),
                },
            },
    {
        let decoded = check_startup(session_fence, &snapshot, limits)?;
        let (old_verifier, old_tag): (Option<[u8; 8]>, Option<u32>) = match &decoded.boot {
            Some(boot) => (Some(boot.verifier), Some(boot.boot_tag)),
            None => (None, None),
        };
        // Only a first run makes these; a later one goes on with those that the image holds.
        let mut server_identity: [u8; 16] = [0u8; 16];
        let mut instance_id: [u8; 8] = [0u8; 8];
        let mut secret: [u8; 32] = [0u8; 32];
        if snapshot.records.len() == 0 {
            server_identity = random_array()?;
            instance_id = random_array()?;
            secret = random_array()?;
        }
        let verifier: [u8; 8] = random_array_excluding(old_verifier)?;
        let boot_tag: u32 = random_boot_tag(old_tag)?;
        let fresh = FreshIdentity { server_identity, instance_id, secret, verifier, boot_tag };
        proof {
            if let Some(other) = old_verifier {
                if other@ == verifier@ {
                    assert(other =~= verifier);
                }
            }
            assert(fresh_for(fresh, decoded@));
        }
        StableJournal::start_with(session_fence, snapshot, decoded, fresh, started_at_unix_seconds, limits)
    }

    /// Starts a run on a decoded snapshot with the given identities. On the first run the server identity and
    /// the handle key are the given ones; later runs keep those that the image holds.
    pub fn start_with(
        session_fence: &[u8],
        snapshot: StableSnapshot,
        decoded: DecodedSnapshot,
        fresh: FreshIdentity,
        started_at_unix_seconds: i64,
        limits: StableJournalLimits,
    ) -> (startup: Result<Startup, StableJournalError>)
        requires
            startup_identity(decoded@, snapshot.records@.len() == 0) is Ok,
        ensures
            ({
                let expected = startup_writes(
                    session_fence@,
                    snapshot.generation,
                    record_views(snapshot.records@),
                    decoded@,
                    fresh,
                    started_at_unix_seconds,
                    limits,
                );
                match startup {
                    Ok(s) => starts_as(
                        s,
                        expected,
                        Seq::new(decoded.legacy_cleanup_keys@.len(), |i: int| decoded.legacy_cleanup_keys@[i]@),
                    ),
                    Err(e) => expected == Err::<(JournalView, Seq<MutationView>), StableJournalError>(e),
                }
            }),
    {
        let ghost decoded_view = decoded@;
        let ghost cleanup = Seq::new(
            decoded.legacy_cleanup_keys@.len(),
            |i: int| decoded.legacy_cleanup_keys@[i]@,
        );
        let is_new = snapshot.records.len() == 0;
        let mut server_identity = ServerIdentityRecord { identity: fresh.server_identity };
        let mut handle_key = HandleKeyRecord { instance_id: fresh.instance_id, secret: fresh.secret };
        let mut previous: Option<BootRecord> = None;
        if !is_new {
            if let Some(found) = decoded.server_identity {
                server_identity = found;
            }
            if let Some(found) = decoded.handle_key {
                handle_key = found;
            }
            previous = decoded.boot;
        }
        let boot = BootRecord {
            verifier: fresh.verifier,
            boot_tag: fresh.boot_tag,
            started_at_unix_seconds,
            clean_shutdown: false,
        };
        let mutations = startup_mutations(is_new, server_identity, handle_key, boot, limits)?;
        let live_records = stable_record_map(&snapshot.records)?;
        let updates = plan_live_record_updates(&live_records, &mutations, limits.max_records)?;
        let previous_shutdown = match &previous {
            None => PreviousShutdown::FirstBoot,
            Some(run) => if run.clean_shutdown {
                PreviousShutdown::Clean
            } else {
                PreviousShutdown::Unclean
            },
        };
        let records: Vec<(JournalKey, JournalRecord)> = if is_new {
            Vec::new()
        } else {
            decoded.records
        };
        let journal = StableJournal {
            fence_token: copy_bytes(session_fence),
            generation: snapshot.generation,
            limits,
            live_records,
            server_identity,
            boot,
            handle_key,
            recovery: RecoveredStableState { previous_shutdown, previous_boot: previous, records },
            migrations: decoded.migrations,
        };
        let plan = CommitPlan {
            kind: PlanKind::Commit,
            expected_generation: snapshot.generation,
            mutations,
            updates,
            effect: PlanEffect::Records,
        };
        let startup = Startup { journal, plan, cleanup: decoded.legacy_cleanup_keys, pending: Vec::new() };
        proof {
            if is_new {
                assert(typed_views(records@) =~= Seq::<TypedView>::empty());
            }
            assert(startup.cleanup_of() =~= cleanup);
        }
        Ok(startup)
    }

    /// The generation of the last commit.
    pub fn generation(&self) -> (generation: u64)
        ensures
            generation == self@.generation,
    {
        self.generation
    }

    /// The fence under which the journal commits.
    pub fn fence_token(&self) -> (token: &Vec<u8>)
        ensures
            token@ == self@.fence_token,
    {
        &self.fence_token
    }

    /// The server's identity.
    pub fn server_identity(&self) -> (identity: ServerIdentityRecord)
        ensures
            identity@ == self@.server_identity,
    {
        self.server_identity
    }

    /// This run.
    pub fn boot(&self) -> (boot: BootRecord)
        ensures
            boot@ == self@.boot,
    {
        self.boot
    }

    /// The key material of file handles.
    pub fn handle_key(&self) -> (key: HandleKeyRecord)
        ensures
            key@ == self@.handle_key,
    {
        self.handle_key
    }

    /// What this run found of the one before it.
    pub fn recovery(&self) -> (recovery: &RecoveredStableState)
        ensures
            recovery@ == self@.recovery,
    {
        &self.recovery
    }

    /// The bounds under which the journal works.
    pub fn limits(&self) -> (limits: StableJournalLimits)
        ensures
            limits == self@.limits,
    {
        self.limits
    }

    /// The number of live records.
    pub fn live_record_count(&self) -> (count: usize)
        ensures
            count == self@.live.dom().len(),
    {
        let count = self.live_records.len();
        assert(self@.live.dom() =~= self.live_records@.dom());
        count
    }

    /// The number of migrations that the journal keeps.
    pub fn migration_count(&self) -> (count: usize)
        ensures
            count == self@.migrations.dom().len(),
    {
        self.migrations.order_known();
        let count = self.migrations.len();
        assert(self@.migrations.dom() =~= self.migrations@.dom());
        count
    }

    /// Whether the session still holds the journal's fence.
    pub fn verify_live_fence(&self, session_fence: &[u8]) -> (held: Result<(), StableJournalError>)
        ensures
            held == if session_fence@ == self@.fence_token {
                Ok::<(), StableJournalError>(())
            } else {
                Err(StableJournalError::Fenced)
            },
    {
        if !bytes_equal(session_fence, self.fence_token.as_slice()) {
            return Err(StableJournalError::Fenced);
        }
        Ok(())
    }

    /// Judges the outcome of a commit.
    pub fn settle(&self, plan: &CommitPlan, session_fence: &[u8], result: Result<u64, StableStateError>) -> (verdict:
        CommitVerdict)
        ensures
            verdict == commit_verdict(session_fence@, self@.fence_token, plan.expected_generation, result),
    {
        settle_commit(session_fence, self.fence_token.as_slice(), plan.expected_generation, result)
    }

    /// Judges a commit by the image that was recovered after it.
    pub fn settle_recovered(
        &self,
        plan: &CommitPlan,
        commit_error: StableStateError,
        recovered: Result<StableSnapshot, StableStateError>,
    ) -> (settled: Result<u64, StableJournalError>)
        ensures
            settled == self@.recovered(*plan, commit_error, recovered),
    {
        settle_recovered(
            self.fence_token.as_slice(),
            plan.expected_generation,
            &self.live_records,
            &plan.updates,
            self.limits,
            commit_error,
            recovered,
        )
    }

    /// Takes over a plan that took effect.
    pub fn finish(&mut self, plan: CommitPlan, generation: u64) -> (persisted: Persisted)
        ensures
            final(self)@ == finished(old(self)@, plan, generation),
            persisted.generation == generation,
    {
        let ghost before = self@;
        let CommitPlan { kind: _, expected_generation: _, mutations: _, updates, effect } = plan;
        apply_live_record_updates(&mut self.live_records, &updates);
        self.generation = generation;
        match effect {
            PlanEffect::Records => {},
            PlanEffect::Boot(boot) => {
                self.boot = boot;
            },
            PlanEffect::Capsule(capsule) => {
                let id = copy_bytes(capsule.transfer_id.as_slice());
                let ghost known = self.migrations@;
                let _ = self.migrations.insert(id, capsule);
                assert(capsules(self.migrations@) =~= capsules(known).insert(capsule.transfer_id@, capsule@));
            },
            PlanEffect::Release(id) => {
                let ghost known = self.migrations@;
                let _ = self.migrations.remove(id.as_slice());
                assert(capsules(self.migrations@) =~= capsules(known).remove(id@));
            },
        }
        assert(self@ =~= finished(before, plan, generation));
        Persisted { generation }
    }

    /// Plans a commit of those mutations.
    pub(crate) fn plan_commit(&self, session_fence: &[u8], mutations: Vec<StableMutation>, effect: PlanEffect) -> (plan:
        Result<CommitPlan, StableJournalError>)
        ensures
            match self@.commit_checked(session_fence@, mutation_views(mutations@)) {
                Ok(_) => plan is Ok && plan->Ok_0.writes(self@.generation, self@.live, mutation_views(mutations@))
                    && plan->Ok_0.effect_of() == effect,
                Err(e) => plan == Err::<CommitPlan, StableJournalError>(e),
            },
    {
        self.verify_live_fence(session_fence)?;
        let updates = plan_live_record_updates(&self.live_records, &mutations, self.limits.max_records)?;
        Ok(
            CommitPlan {
                kind: PlanKind::Commit,
                expected_generation: self.generation,
                mutations,
                updates,
                effect,
            },
        )
    }

    /// Plans the commit of state that must be durable before the client hears of it.
    pub fn persist_before_ack(&self, session_fence: &[u8], batch: PersistBatch) -> (plan: Result<
        CommitPlan,
        StableJournalError,
    >)
        ensures
            planned(plan, self@, self@.persist_checked(session_fence@, batch@)),
            plan is Ok ==> plan->Ok_0.effect_of() is Records,
    {
        if batch.is_empty() {
            return Err(StableJournalError::EmptyBatch);
        }
        if batch.len() > self.limits.max_batch_mutations {
            return Err(StableJournalError::LimitExceeded("stable mutation batch"));
        }
        self.verify_live_fence(session_fence)?;
        let mutations = encode_changes(&batch, self.limits)?;
        self.plan_commit(session_fence, mutations, PlanEffect::Records)
    }

    /// Plans a checkpoint: no record changes.
    pub fn checkpoint(&self, session_fence: &[u8]) -> (plan: Result<CommitPlan, StableJournalError>)
        ensures
            if session_fence@ == self@.fence_token {
                plan is Ok && checkpoints(plan->Ok_0, self@)
            } else {
                plan == Err::<CommitPlan, StableJournalError>(StableJournalError::Fenced)
            },
    {
        self.verify_live_fence(session_fence)?;
        let plan = CommitPlan {
            kind: PlanKind::Checkpoint,
            expected_generation: self.generation,
            mutations: Vec::new(),
            updates: ByteMap::new(),
            effect: PlanEffect::Records,
        };
        assert(overlay(self@.live, plan.overlay_of()) =~= self@.live);
        Ok(plan)
    }

    /// Plans to record that this run ends cleanly; where that is recorded already, a checkpoint.
    pub fn mark_clean_shutdown(&self, session_fence: &[u8]) -> (plan: Result<CommitPlan, StableJournalError>)
        ensures
            if self@.boot.clean_shutdown {
                if session_fence@ == self@.fence_token {
                    plan is Ok && checkpoints(plan->Ok_0, self@)
                } else {
                    plan == Err::<CommitPlan, StableJournalError>(StableJournalError::Fenced)
                }
            } else {
                let clean = (BootView { clean_shutdown: true, ..self@.boot });
                &&& planned(plan, self@, self@.clean_writes(session_fence@))
                &&& plan is Ok ==> plan->Ok_0.effect_of() is Boot && (plan->Ok_0.effect_of()->Boot_0)@ == clean
            },
    {
        if self.boot.clean_shutdown {
            return self.checkpoint(session_fence);
        }
        let clean = BootRecord {
            verifier: self.boot.verifier,
            boot_tag: self.boot.boot_tag,
            started_at_unix_seconds: self.boot.started_at_unix_seconds,
            clean_shutdown: true,
        };
        let mutation = put_mutation(&JournalKey::Boot, &JournalRecord::Boot(clean), self.limits)?;
        let mut mutations: Vec<StableMutation> = Vec::new();
        mutations.push(mutation);
        assert(mutation_views(mutations@) =~= seq![mutation@]);
        self.plan_commit(session_fence, mutations, PlanEffect::Boot(clean))
    }
}

/// A plan that asks for a checkpoint on that state and changes no record.
pub open spec fn checkpoints(plan: CommitPlan, journal: JournalView) -> bool {
    &&& plan.kind == PlanKind::Checkpoint
    &&& plan.expected_generation == journal.generation
    &&& plan.mutations@.len() == 0
    &&& overlay(journal.live, plan.overlay_of()) == journal.live
    &&& plan.effect_of() is Records
}

/// The startup is what the identities make it: the journal to be, its first commit and its cleanup.
pub open spec fn starts_as(
    startup: Startup,
    expected: Result<(JournalView, Seq<MutationView>), StableJournalError>,
    cleanup: Seq<KeyView>,
) -> bool {
    expected matches Ok((journal, mutations)) && startup.journal_of() == journal && startup.plan_of().writes(
        journal.generation,
        journal.live,
        mutations,
    ) && startup.plan_of().effect_of() is Records && startup.cleanup_of() == cleanup
}

/// The run's verifier and tag are not those of the run before it, and the tag is a usable one.
pub open spec fn fresh_for(fresh: FreshIdentity, decoded: DecodedView) -> bool {
    &&& fresh.boot_tag != 0
    &&& fresh.boot_tag != u32::MAX
    &&& decoded.boot matches Some(boot) ==> boot.verifier != fresh.verifier@ && boot.boot_tag != fresh.boot_tag
}

} // verus!
