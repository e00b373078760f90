//! What one run leaves to the next: its identity, how it ended, and the records that it put.

use vstd::prelude::*;

use crate::canonical::lemma_key_canonical;
use crate::check::pair_checked;
use crate::commit::{apply_mutations, mutation_key, mutation_value, MutationView};
use crate::error::StableJournalError;
use crate::journal::durable::{
    change_key, keys_shaped, last_word, lemma_batch_written, lemma_decoded_each, lemma_image_carried, lemma_image_held,
    lemma_last_counts, lemma_last_stored, lemma_nothing_invented, lemma_retained_each, lemma_stored_under, ordinary,
};
use crate::journal::laws::{lemma_identity_kept, lemma_untouched};
use crate::journal::migration::{expected_after_materialized, materialized, migration_key};
use crate::journal::{
    cleanup_encoded, encode_batch, fresh_for, put_change, put_changes, startup_checked, startup_records, startup_writes,
    ChangeView, FreshIdentity, JournalView, PreviousShutdown,
};
use crate::layout::{check_transfer, encode_key, parse_key, parse_record};
use crate::limits::StableJournalLimits;
use crate::record::{
    key_reserved, key_shaped, lemma_flat_injective, record_shaped, BootView, CapsuleView, KeyView, RecordView,
    SchemaRecord, StableKeyView, StableRecordView, SCHEMA_VERSION,
};
use crate::roundtrip::{lemma_key_injective, lemma_key_round_trip, lemma_record_round_trip};
use crate::snapshot::{cleanup_keys, decode_image, decode_prefix, image_of, DecodedView};
use crate::transfer::{dropped_keys, retained, suppressed, TypedView};

verus! {

/// What is stored under a key reads as the record.
pub open spec fn stores(live: Map<Seq<u8>, Seq<u8>>, key: KeyView, record: RecordView, limits: StableJournalLimits) -> bool {
    encode_key(key, limits) matches Ok(stored) && live.contains_key(stored.flat()) && parse_record(
        live[stored.flat()],
        limits,
    ) == Ok::<RecordView, StableJournalError>(record)
}

/// The records of a journal tell who it is: its schema, the server's identity, its handle key and its run.
pub open spec fn self_described(journal: JournalView) -> bool {
    let limits = journal.limits;
    &&& stores(
        journal.live,
        KeyView::Schema,
        RecordView::Schema(SchemaRecord { version: SCHEMA_VERSION }),
        limits,
    )
    &&& stores(journal.live, KeyView::ServerIdentity, RecordView::ServerIdentity(journal.server_identity), limits)
    &&& stores(journal.live, KeyView::HandleKey, RecordView::HandleKey(journal.handle_key), limits)
    &&& stores(journal.live, KeyView::Boot, RecordView::Boot(journal.boot), limits)
    &&& journal.boot.verifier.len() == 8
}

/// A key under which a journal tells who it is.
pub open spec fn describing(key: KeyView) -> bool {
    key is Schema || key is ServerIdentity || key is HandleKey || key is Boot
}

/// The journal once mutations have taken effect.
pub open spec fn changed(journal: JournalView, mutations: Seq<MutationView>) -> JournalView {
    JournalView { live: apply_mutations(journal.live, mutations, mutations.len()), ..journal }
}

/// Each mutation is about a key other than those under which a journal tells who it is.
pub open spec fn leaves_description(mutations: Seq<MutationView>, limits: StableJournalLimits) -> bool {
    forall|i: int| 0 <= i < mutations.len() ==> leaves_own(#[trigger] mutations[i], limits)
}

/// The mutation is about a key other than those under which a journal tells who it is.
pub open spec fn leaves_own(mutation: MutationView, limits: StableJournalLimits) -> bool {
    exists|key: KeyView| #[trigger] stored_as(mutation, key, limits) && !describing(key)
}

/// The mutation is about the stored form of the key.
pub open spec fn stored_as(mutation: MutationView, key: KeyView, limits: StableJournalLimits) -> bool {
    &&& key_shaped(key)
    &&& encode_key(key, limits) matches Ok(stored) && mutation_key(mutation) == stored.flat()
}

/// Different keys are stored apart.
proof fn lemma_stored_apart(a: KeyView, b: KeyView, limits: StableJournalLimits)
    requires
        key_shaped(a),
        key_shaped(b),
        encode_key(a, limits) is Ok,
        encode_key(b, limits) is Ok,
        a != b,
    ensures
        (encode_key(a, limits)->Ok_0).flat() != (encode_key(b, limits)->Ok_0).flat(),
{
    let x = encode_key(a, limits)->Ok_0;
    let y = encode_key(b, limits)->Ok_0;
    if x.flat() == y.flat() {
        lemma_flat_injective(x, y);
        lemma_key_injective(a, b, limits);
    }
}

/// What a record is written as reads as the record.
proof fn lemma_put_reads(key: KeyView, record: RecordView, limits: StableJournalLimits)
    requires
        put_change(key, record, limits) is Ok,
        record_shaped(record),
        !(record is Migration),
    ensures
        ({
            let one = put_change(key, record, limits)->Ok_0;
            &&& encode_key(key, limits) is Ok
            &&& mutation_key(one) == (encode_key(key, limits)->Ok_0).flat()
            &&& mutation_value(one) is Some
            &&& parse_record(mutation_value(one)->0, limits) == Ok::<RecordView, StableJournalError>(record)
        }),
{
    reveal(put_change);
    reveal(pair_checked);
    lemma_record_round_trip(record, limits);
}

/// A record that no mutation is about stays stored.
proof fn lemma_stays_stored(
    live: Map<Seq<u8>, Seq<u8>>,
    mutations: Seq<MutationView>,
    key: KeyView,
    record: RecordView,
    limits: StableJournalLimits,
)
    requires
        key_shaped(key),
        stores(live, key, record, limits),
        describing(key),
        leaves_description(mutations, limits),
    ensures
        stores(apply_mutations(live, mutations, mutations.len()), key, record, limits),
{
    let place = (encode_key(key, limits)->Ok_0).flat();
    assert forall|i: int| 0 <= i < mutations.len() implies mutation_key(#[trigger] mutations[i]) != place by {
        assert(leaves_own(mutations[i], limits));
        let other = choose|other: KeyView| #[trigger] stored_as(mutations[i], other, limits) && !describing(other);
        lemma_stored_apart(other, key, limits);
    }
    lemma_untouched(live, mutations, mutations.len(), place);
}

/// A journal goes on telling who it is where nothing is written under the keys for that.
pub proof fn lemma_others_described(journal: JournalView, mutations: Seq<MutationView>)
    requires
        self_described(journal),
        leaves_description(mutations, journal.limits),
    ensures
        self_described(changed(journal, mutations)),
{
    let limits = journal.limits;
    lemma_stays_stored(
        journal.live,
        mutations,
        KeyView::Schema,
        RecordView::Schema(SchemaRecord { version: SCHEMA_VERSION }),
        limits,
    );
    lemma_stays_stored(
        journal.live,
        mutations,
        KeyView::ServerIdentity,
        RecordView::ServerIdentity(journal.server_identity),
        limits,
    );
    lemma_stays_stored(
        journal.live,
        mutations,
        KeyView::HandleKey,
        RecordView::HandleKey(journal.handle_key),
        limits,
    );
    lemma_stays_stored(journal.live, mutations, KeyView::Boot, RecordView::Boot(journal.boot), limits);
}

/// A journal goes on telling who it is after a batch of records.
pub proof fn lemma_batch_described(journal: JournalView, batch: Seq<ChangeView>)
    requires
        self_described(journal),
        encode_batch(batch, journal.limits, batch.len()) is Ok,
        keys_shaped(batch),
    ensures
        self_described(changed(journal, encode_batch(batch, journal.limits, batch.len())->Ok_0)),
{
    let limits = journal.limits;
    let mutations = encode_batch(batch, limits, batch.len())->Ok_0;
    lemma_batch_written(batch, limits, batch.len());
    assert forall|i: int| 0 <= i < mutations.len() implies leaves_own(#[trigger] mutations[i], limits) by {
        lemma_stored_under(batch, limits, i);
        assert(!key_reserved(change_key(batch[i])));
        assert(stored_as(mutations[i], change_key(batch[i]), limits));
    }
    lemma_others_described(journal, mutations);
}

/// The journal once the clean end of its run is recorded.
pub open spec fn ended(journal: JournalView) -> JournalView {
    let clean = BootView { clean_shutdown: true, ..journal.boot };
    let one = put_change(KeyView::Boot, RecordView::Boot(clean), journal.limits)->Ok_0;
    JournalView { boot: clean, ..changed(journal, seq![one]) }
}

/// A journal goes on telling who it is once the clean end of its run is recorded.
pub proof fn lemma_end_described(journal: JournalView)
    requires
        self_described(journal),
        put_change(
            KeyView::Boot,
            RecordView::Boot(BootView { clean_shutdown: true, ..journal.boot }),
            journal.limits,
        ) is Ok,
    ensures
        self_described(ended(journal)),
{
    let limits = journal.limits;
    let clean = BootView { clean_shutdown: true, ..journal.boot };
    let one = put_change(KeyView::Boot, RecordView::Boot(clean), limits)->Ok_0;
    let mutations = seq![one];
    lemma_put_reads(KeyView::Boot, RecordView::Boot(clean), limits);
    lemma_last_counts(journal.live, mutations, 0, 1);
    lemma_stored_apart(KeyView::Schema, KeyView::Boot, limits);
    lemma_stored_apart(KeyView::ServerIdentity, KeyView::Boot, limits);
    lemma_stored_apart(KeyView::HandleKey, KeyView::Boot, limits);
    lemma_untouched(journal.live, mutations, 1, (encode_key(KeyView::Schema, limits)->Ok_0).flat());
    lemma_untouched(journal.live, mutations, 1, (encode_key(KeyView::ServerIdentity, limits)->Ok_0).flat());
    lemma_untouched(journal.live, mutations, 1, (encode_key(KeyView::HandleKey, limits)->Ok_0).flat());
}

/// A journal goes on telling who it is once a migration is recorded, in whatever phase, or forgotten.
pub proof fn lemma_migration_described(journal: JournalView, key: KeyView, mutation: MutationView)
    requires
        self_described(journal),
        key is Migration,
        stored_as(mutation, key, journal.limits),
    ensures
        self_described(changed(journal, seq![mutation])),
{
    assert forall|i: int| 0 <= i < seq![mutation].len() implies leaves_own(#[trigger] seq![mutation][i], journal.limits) by {
        assert(stored_as(seq![mutation][i], key, journal.limits));
    }
    lemma_others_described(journal, seq![mutation]);
}

/// The records of a capsule are written under keys of their own.
proof fn lemma_materialized_described(
    image: Map<Seq<u8>, Seq<u8>>,
    records: Seq<StableRecordView>,
    limits: StableJournalLimits,
    n: nat,
)
    requires
        n <= records.len(),
        materialized(image, records, n) is Ok,
        forall|i: int| 0 <= i < n ==> check_transfer(#[trigger] records[i], limits) is Ok,
    ensures
        leaves_description(materialized(image, records, n)->Ok_0, limits),
    decreases n,
{
    if n > 0 {
        lemma_materialized_described(image, records, limits, (n - 1) as nat);
        let before = materialized(image, records, (n - 1) as nat)->Ok_0;
        let after = materialized(image, records, n)->Ok_0;
        let one = records[n - 1];
        assert(check_transfer(one, limits) is Ok);
        let key = parse_key(one.key, limits)->Ok_0;
        lemma_key_canonical(one.key, limits);
        assert forall|i: int| 0 <= i < after.len() implies leaves_own(#[trigger] after[i], limits) by {
            if i < before.len() {
                assert(after[i] == before[i]);
                assert(leaves_own(before[i], limits));
                let k = choose|k: KeyView| #[trigger] stored_as(before[i], k, limits) && !describing(k);
                assert(stored_as(after[i], k, limits));
            } else {
                assert(stored_as(after[i], key, limits));
            }
        }
    }
}

/// A journal goes on telling who it is once a migration is committed.
pub proof fn lemma_commit_described(
    journal: JournalView,
    session_fence: Seq<u8>,
    image: Map<Seq<u8>, Seq<u8>>,
    staged: CapsuleView,
)
    requires
        self_described(journal),
        key_shaped(migration_key(staged)),
        forall|i: int|
            0 <= i < staged.records.len() ==> check_transfer(#[trigger] staged.records[i], journal.limits) is Ok,
        expected_after_materialized(journal, session_fence, image, staged) is Ok,
    ensures
        self_described(changed(journal, expected_after_materialized(journal, session_fence, image, staged)->Ok_0)),
{
    reveal(put_change);
    let limits = journal.limits;
    let mutations = expected_after_materialized(journal, session_fence, image, staged)->Ok_0;
    let puts = materialized(image, staged.records, staged.records.len())->Ok_0;
    lemma_materialized_described(image, staged.records, limits, staged.records.len());
    assert forall|i: int| 0 <= i < mutations.len() implies leaves_own(#[trigger] mutations[i], limits) by {
        if i < puts.len() {
            assert(mutations[i] == puts[i]);
            assert(leaves_own(puts[i], limits));
            let k = choose|k: KeyView| #[trigger] stored_as(puts[i], k, limits) && !describing(k);
            assert(stored_as(mutations[i], k, limits));
        } else {
            assert(stored_as(mutations[i], migration_key(staged), limits));
        }
    }
    lemma_others_described(journal, mutations);
}

/// What was decoded agrees with a record that tells of a journal.
spec fn tells(done: DecodedView, record: RecordView) -> bool {
    match record {
        RecordView::ServerIdentity(r) => done.server_identity == Some(r),
        RecordView::HandleKey(r) => done.handle_key == Some(r),
        RecordView::Boot(r) => done.boot == Some(r),
        _ => true,
    }
}

/// One of the first `n` stored records reads as that key and record.
spec fn found_as(
    records: Seq<StableRecordView>,
    n: nat,
    key: KeyView,
    record: RecordView,
    limits: StableJournalLimits,
) -> bool {
    exists|i: int| 0 <= i < n && #[trigger] reads_as(records[i], key, record, limits)
}

/// What was decoded of a journal stands in the first `n` stored records.
spec fn told_by(done: DecodedView, records: Seq<StableRecordView>, n: nat, limits: StableJournalLimits) -> bool {
    &&& done.schema matches Some(r) ==> found_as(records, n, KeyView::Schema, RecordView::Schema(r), limits)
    &&& done.server_identity matches Some(r) ==> found_as(
        records,
        n,
        KeyView::ServerIdentity,
        RecordView::ServerIdentity(r),
        limits,
    )
    &&& done.handle_key matches Some(r) ==> found_as(records, n, KeyView::HandleKey, RecordView::HandleKey(r), limits)
    &&& done.boot matches Some(r) ==> found_as(records, n, KeyView::Boot, RecordView::Boot(r), limits)
}

/// The keys that go are keys of the records.
proof fn lemma_dropped_each(all: Seq<TypedView>, n: nat)
    requires
        n <= all.len(),
    ensures
        forall|j: int| 0 <= j < dropped_keys(all, n).len() ==> exists|i: int|
            0 <= i < n && (#[trigger] all[i]).0 == #[trigger] dropped_keys(all, n)[j],
    decreases n,
{
    if n > 0 {
        lemma_dropped_each(all, (n - 1) as nat);
        let before = dropped_keys(all, (n - 1) as nat);
        let after = dropped_keys(all, n);
        assert forall|j: int| 0 <= j < after.len() implies exists|i: int|
            0 <= i < n && (#[trigger] all[i]).0 == #[trigger] after[j] by {
            if j < before.len() {
                assert(after[j] == before[j]);
                let i = choose|i: int| 0 <= i < n - 1 && (#[trigger] all[i]).0 == before[j];
                assert(all[i].0 == after[j]);
            } else {
                assert(all[n - 1].0 == after[j]);
            }
        }
    }
}

/// Each stored key of a clean-up is that of one of its keys.
proof fn lemma_cleanup_each(keys: Seq<KeyView>, limits: StableJournalLimits, n: nat)
    requires
        n <= keys.len(),
        cleanup_encoded(keys, limits, n) is Ok,
    ensures
        cleanup_encoded(keys, limits, n)->Ok_0.len() == n,
        forall|j: int|
            0 <= j < n ==> encode_key(keys[j], limits) == Ok::<StableKeyView, StableJournalError>(
                #[trigger] cleanup_encoded(keys, limits, n)->Ok_0[j],
            ),
    decreases n,
{
    if n > 0 {
        lemma_cleanup_each(keys, limits, (n - 1) as nat);
    }
}

/// The mutation deletes one of the stored keys.
pub open spec fn deletes_one(mutation: MutationView, keys: Seq<StableKeyView>) -> bool {
    mutation matches MutationView::Delete { key } && keys.contains(key)
}

/// A journal goes on telling who it is once records that it no longer carries are deleted.
pub proof fn lemma_cleanup_described(journal: JournalView, records: Seq<StableRecordView>, deletions: Seq<MutationView>)
    requires
        self_described(journal),
        decode_prefix(records, journal.limits, records.len()) is Ok,
        ({
            let keys = cleanup_keys(records, journal.limits);
            &&& cleanup_encoded(keys, journal.limits, keys.len()) is Ok
            &&& forall|i: int|
                0 <= i < deletions.len() ==> deletes_one(
                    #[trigger] deletions[i],
                    cleanup_encoded(keys, journal.limits, keys.len())->Ok_0,
                )
        }),
    ensures
        self_described(changed(journal, deletions)),
{
    let limits = journal.limits;
    let keys = cleanup_keys(records, limits);
    let stored = cleanup_encoded(keys, limits, keys.len())->Ok_0;
    let all = decode_prefix(records, limits, records.len())->Ok_0.records;
    lemma_dropped_each(all, all.len());
    lemma_cleanup_each(keys, limits, keys.len());
    lemma_kept_ordinary(records, limits, records.len());
    assert forall|i: int| 0 <= i < deletions.len() implies leaves_own(#[trigger] deletions[i], limits) by {
        assert(deletes_one(deletions[i], stored));
        let j = stored.index_of(deletions[i]->Delete_key);
        assert(stored[j] == deletions[i]->Delete_key);
        let k = choose|k: int| 0 <= k < all.len() && (#[trigger] all[k]).0 == keys[j];
        assert(all.contains(all[k]));
        assert(stored_as(deletions[i], keys[j], limits));
    }
    lemma_others_described(journal, deletions);
}

/// What an image tells of a journal, record by record.
proof fn lemma_decoded_own(records: Seq<StableRecordView>, limits: StableJournalLimits, n: nat)
    requires
        n <= records.len(),
        decode_prefix(records, limits, n) is Ok,
    ensures
        told_by(decode_prefix(records, limits, n)->Ok_0, records, n, limits),
        forall|i: int|
            0 <= i < n ==> tells(
                decode_prefix(records, limits, n)->Ok_0,
                parse_record((#[trigger] records[i]).payload, limits)->Ok_0,
            ),
    decreases n,
{
    if n > 0 {
        reveal(pair_checked);
        lemma_decoded_own(records, limits, (n - 1) as nat);
        let before = decode_prefix(records, limits, (n - 1) as nat)->Ok_0;
        let done = decode_prefix(records, limits, n)->Ok_0;
        let key = parse_key(records[n - 1].key, limits)->Ok_0;
        let record = parse_record(records[n - 1].payload, limits)->Ok_0;
        assert(reads_as(records[n - 1], key, record, limits));
        assert(found_as(records, n, key, record, limits));
        assert forall|k: KeyView, r: RecordView| found_as(records, (n - 1) as nat, k, r, limits) implies #[trigger] found_as(
            records,
            n,
            k,
            r,
            limits,
        ) by {
            let i = choose|i: int| 0 <= i < n - 1 && #[trigger] reads_as(records[i], k, r, limits);
            assert(0 <= i < n);
        }
        assert(told_by(done, records, n, limits));
        assert(tells(done, record));
        assert forall|other: RecordView| tells(before, other) implies #[trigger] tells(done, other) by {}
        assert forall|i: int| 0 <= i < n implies tells(done, parse_record((#[trigger] records[i]).payload, limits)->Ok_0) by {
            if i < n - 1 {
                assert(tells(before, parse_record(records[i].payload, limits)->Ok_0));
            }
        }
    }
}

/// The stored record reads as that key and record.
spec fn reads_as(stored: StableRecordView, key: KeyView, record: RecordView, limits: StableJournalLimits) -> bool {
    parse_key(stored.key, limits) == Ok::<KeyView, StableJournalError>(key) && parse_record(stored.payload, limits)
        == Ok::<RecordView, StableJournalError>(record)
}

/// What a record of an image reads as is stored in it.
proof fn lemma_read_stored(
    records: Seq<StableRecordView>,
    i: int,
    key: KeyView,
    record: RecordView,
    limits: StableJournalLimits,
)
    requires
        0 <= i < records.len(),
        decode_prefix(records, limits, records.len()) is Ok,
        reads_as(records[i], key, record, limits),
    ensures
        stores(image_of(records, records.len()), key, record, limits),
{
    lemma_decoded_each(records, limits, records.len());
    lemma_key_canonical(records[i].key, limits);
    lemma_image_held(records, records.len(), i);
}

/// The run once its first commit is made.
pub open spec fn began(
    session_fence: Seq<u8>,
    generation: u64,
    records: Seq<StableRecordView>,
    decoded: DecodedView,
    fresh: FreshIdentity,
    started_at_unix_seconds: i64,
    limits: StableJournalLimits,
) -> JournalView {
    let (journal, mutations) = startup_writes(
        session_fence,
        generation,
        records,
        decoded,
        fresh,
        started_at_unix_seconds,
        limits,
    )->Ok_0;
    changed(journal, mutations)
}

/// A journal tells who it is from the first commit of its run on.
pub proof fn lemma_start_described(
    session_fence: Seq<u8>,
    fence: Seq<u8>,
    generation: u64,
    records: Seq<StableRecordView>,
    fresh: FreshIdentity,
    started_at_unix_seconds: i64,
    limits: StableJournalLimits,
)
    requires
        startup_checked(session_fence, fence, records, limits) is Ok,
        startup_writes(
            session_fence,
            generation,
            records,
            startup_checked(session_fence, fence, records, limits)->Ok_0,
            fresh,
            started_at_unix_seconds,
            limits,
        ) is Ok,
    ensures
        self_described(
            began(
                session_fence,
                generation,
                records,
                startup_checked(session_fence, fence, records, limits)->Ok_0,
                fresh,
                started_at_unix_seconds,
                limits,
            ),
        ),
{
    let decoded = startup_checked(session_fence, fence, records, limits)->Ok_0;
    let (journal, mutations) = startup_writes(
        session_fence,
        generation,
        records,
        decoded,
        fresh,
        started_at_unix_seconds,
        limits,
    )->Ok_0;
    let writes = startup_records(records.len() == 0, journal.server_identity, journal.handle_key, journal.boot);
    reveal_with_fuel(put_changes, 5);
    let boot = RecordView::Boot(journal.boot);
    let at = (writes.len() - 1) as int;
    assert(writes[at] == (KeyView::Boot, boot));
    assert(put_change(KeyView::Boot, boot, limits) == Ok::<MutationView, StableJournalError>(mutations[at]));
    lemma_put_reads(KeyView::Boot, boot, limits);
    lemma_last_counts(journal.live, mutations, at, mutations.len());
    let schema = RecordView::Schema(SchemaRecord { version: SCHEMA_VERSION });
    let identity = RecordView::ServerIdentity(journal.server_identity);
    let handle = RecordView::HandleKey(journal.handle_key);
    if records.len() == 0 {
        assert(put_change(KeyView::Schema, schema, limits) == Ok::<MutationView, StableJournalError>(mutations[0]));
        assert(put_change(KeyView::ServerIdentity, identity, limits) == Ok::<MutationView, StableJournalError>(
            mutations[1],
        ));
        assert(put_change(KeyView::HandleKey, handle, limits) == Ok::<MutationView, StableJournalError>(mutations[2]));
        lemma_put_reads(KeyView::Schema, schema, limits);
        lemma_put_reads(KeyView::ServerIdentity, identity, limits);
        lemma_put_reads(KeyView::HandleKey, handle, limits);
        lemma_stored_apart(KeyView::Schema, KeyView::ServerIdentity, limits);
        lemma_stored_apart(KeyView::Schema, KeyView::HandleKey, limits);
        lemma_stored_apart(KeyView::Schema, KeyView::Boot, limits);
        lemma_stored_apart(KeyView::ServerIdentity, KeyView::HandleKey, limits);
        lemma_stored_apart(KeyView::ServerIdentity, KeyView::Boot, limits);
        lemma_stored_apart(KeyView::HandleKey, KeyView::Boot, limits);
        assert(mutations.len() == 4);
        lemma_last_counts(journal.live, mutations, 0, 4);
        lemma_last_counts(journal.live, mutations, 1, 4);
        lemma_last_counts(journal.live, mutations, 2, 4);
    } else {
        assert(mutations.len() == 1);
        lemma_decoded_own(records, limits, records.len());
        let a = choose|i: int|
            0 <= i < records.len() && #[trigger] reads_as(records[i], KeyView::Schema, schema, limits);
        lemma_read_stored(records, a, KeyView::Schema, schema, limits);
        let b = choose|i: int|
            0 <= i < records.len() && #[trigger] reads_as(records[i], KeyView::ServerIdentity, identity, limits);
        lemma_read_stored(records, b, KeyView::ServerIdentity, identity, limits);
        let c = choose|i: int|
            0 <= i < records.len() && #[trigger] reads_as(records[i], KeyView::HandleKey, handle, limits);
        lemma_read_stored(records, c, KeyView::HandleKey, handle, limits);
        lemma_stored_apart(KeyView::Schema, KeyView::Boot, limits);
        lemma_stored_apart(KeyView::ServerIdentity, KeyView::Boot, limits);
        lemma_stored_apart(KeyView::HandleKey, KeyView::Boot, limits);
        lemma_untouched(journal.live, mutations, 1, (encode_key(KeyView::Schema, limits)->Ok_0).flat());
        lemma_untouched(journal.live, mutations, 1, (encode_key(KeyView::ServerIdentity, limits)->Ok_0).flat());
        lemma_untouched(journal.live, mutations, 1, (encode_key(KeyView::HandleKey, limits)->Ok_0).flat());
    }
}

/// A run on what another run left has the other's identity and handle key and a verifier and tag of its own, knows the
/// other run and how it ended, and has not ended cleanly itself.
pub proof fn lemma_next_run(
    last: JournalView,
    session_fence: Seq<u8>,
    fence: Seq<u8>,
    generation: u64,
    records: Seq<StableRecordView>,
    fresh: FreshIdentity,
    started_at_unix_seconds: i64,
)
    requires
        self_described(last),
        image_of(records, records.len()) == last.live,
        startup_checked(session_fence, fence, records, last.limits) is Ok,
        fresh_for(fresh, startup_checked(session_fence, fence, records, last.limits)->Ok_0),
        startup_writes(
            session_fence,
            generation,
            records,
            startup_checked(session_fence, fence, records, last.limits)->Ok_0,
            fresh,
            started_at_unix_seconds,
            last.limits,
        ) is Ok,
    ensures
        ({
            let decoded = startup_checked(session_fence, fence, records, last.limits)->Ok_0;
            let next = began(
                session_fence,
                generation,
                records,
                decoded,
                fresh,
                started_at_unix_seconds,
                last.limits,
            );
            &&& next.server_identity == last.server_identity
            &&& next.handle_key == last.handle_key
            &&& next.boot.verifier != last.boot.verifier
            &&& next.boot.boot_tag != last.boot.boot_tag
            &&& !next.boot.clean_shutdown
            &&& next.recovery.previous_boot == Some(last.boot)
            &&& next.recovery.previous_shutdown == if last.boot.clean_shutdown {
                PreviousShutdown::Clean
            } else {
                PreviousShutdown::Unclean
            }
            &&& next.recovery.records == decoded.records
        }),
{
    let limits = last.limits;
    let decoded = startup_checked(session_fence, fence, records, limits)->Ok_0;
    lemma_decoded_each(records, limits, records.len());
    lemma_decoded_own(records, limits, records.len());
    let boot = encode_key(KeyView::Boot, limits)->Ok_0;
    let identity = encode_key(KeyView::ServerIdentity, limits)->Ok_0;
    let handle = encode_key(KeyView::HandleKey, limits)->Ok_0;
    lemma_image_carried(records, boot);
    lemma_image_carried(records, identity);
    lemma_image_carried(records, handle);
    assert(decoded.boot == Some(last.boot));
    assert(decoded.server_identity == Some(last.server_identity));
    assert(decoded.handle_key == Some(last.handle_key));
    assert(records.len() != 0);
    lemma_identity_kept(session_fence, generation, records, decoded, fresh, started_at_unix_seconds, limits);
}

/// Where a record under a key comes from: it was there and no mutation is about it, or the last mutation about it put
/// it there.
proof fn lemma_origin(live: Map<Seq<u8>, Seq<u8>>, mutations: Seq<MutationView>, n: nat, key: Seq<u8>)
    requires
        n <= mutations.len(),
        apply_mutations(live, mutations, n).contains_key(key),
    ensures
        live.contains_key(key) || exists|i: int|
            0 <= i < n && mutation_key(#[trigger] mutations[i]) == key && mutation_value(mutations[i]) == Some(
                apply_mutations(live, mutations, n)[key],
            ) && forall|j: int| i < j < n ==> mutation_key(#[trigger] mutations[j]) != key,
    decreases n,
{
    if n > 0 {
        if mutation_key(mutations[n - 1]) != key {
            lemma_origin(live, mutations, (n - 1) as nat, key);
            if !live.contains_key(key) {
                let i = choose|i: int|
                    0 <= i < n - 1 && mutation_key(#[trigger] mutations[i]) == key && mutation_value(mutations[i])
                        == Some(apply_mutations(live, mutations, (n - 1) as nat)[key]) && forall|j: int|
                        i < j < n - 1 ==> mutation_key(#[trigger] mutations[j]) != key;
                assert(0 <= i < n && mutation_key(mutations[i]) == key);
            }
        } else {
            assert(mutation_value(mutations[n - 1]) == Some(apply_mutations(live, mutations, n)[key]));
        }
    }
}

/// What a first run put is all that the next one finds: under a key that an empty store came to hold, by the first
/// commit of a run, a batch and the end of the run, lies what the last change of the batch put there.
proof fn lemma_all_put(
    first: Seq<MutationView>,
    batch: Seq<ChangeView>,
    end: Seq<MutationView>,
    typed: TypedView,
    limits: StableJournalLimits,
)
    requires
        encode_batch(batch, limits, batch.len()) is Ok,
        keys_shaped(batch),
        forall|i: int| 0 <= i < batch.len() && batch[i] is Put ==> record_shaped((#[trigger] batch[i])->record),
        forall|i: int| 0 <= i < first.len() ==> describes(#[trigger] first[i], limits),
        forall|i: int| 0 <= i < end.len() ==> describes(#[trigger] end[i], limits),
        key_shaped(typed.0),
        !describing(typed.0),
        ({
            let one = apply_mutations(Map::empty(), first, first.len());
            let two = apply_mutations(one, encode_batch(batch, limits, batch.len())->Ok_0, batch.len());
            stores(apply_mutations(two, end, end.len()), typed.0, typed.1, limits)
        }),
    ensures
        exists|i: int|
            0 <= i < batch.len() && last_word(batch, i) && #[trigger] batch[i] == (ChangeView::Put {
                key: typed.0,
                record: typed.1,
            }),
{
    let mutations = encode_batch(batch, limits, batch.len())->Ok_0;
    let place = (encode_key(typed.0, limits)->Ok_0).flat();
    let none = Map::<Seq<u8>, Seq<u8>>::empty();
    let one = apply_mutations(none, first, first.len());
    let two = apply_mutations(one, mutations, batch.len());
    lemma_batch_written(batch, limits, batch.len());
    assert forall|i: int| 0 <= i < first.len() implies mutation_key(#[trigger] first[i]) != place by {
        assert(describes(first[i], limits));
        let key = choose|key: KeyView| #[trigger] stored_as(first[i], key, limits) && describing(key);
        lemma_stored_apart(key, typed.0, limits);
    }
    assert forall|i: int| 0 <= i < end.len() implies mutation_key(#[trigger] end[i]) != place by {
        assert(describes(end[i], limits));
        let key = choose|key: KeyView| #[trigger] stored_as(end[i], key, limits) && describing(key);
        lemma_stored_apart(key, typed.0, limits);
    }
    lemma_untouched(none, first, first.len(), place);
    lemma_untouched(two, end, end.len(), place);
    lemma_origin(one, mutations, mutations.len(), place);
    let i = choose|i: int|
        0 <= i < mutations.len() && mutation_key(#[trigger] mutations[i]) == place && mutation_value(mutations[i])
            == Some(two[place]) && forall|j: int| i < j < mutations.len() ==> mutation_key(#[trigger] mutations[j]) != place;
    lemma_stored_under(batch, limits, i);
    assert(key_shaped(change_key(batch[i])));
    if change_key(batch[i]) != typed.0 {
        lemma_stored_apart(change_key(batch[i]), typed.0, limits);
    }
    assert(!key_reserved(change_key(batch[i])));
    assert(batch[i] is Put) by {
        if batch[i] is Delete {
            assert(mutation_value(mutations[i]) is None);
        }
    }
    let record = batch[i]->record;
    assert(put_change(typed.0, record, limits) == Ok::<MutationView, StableJournalError>(mutations[i]));
    assert(!(record is Migration)) by {
        reveal(put_change);
        reveal(pair_checked);
    }
    assert(record_shaped(record));
    lemma_put_reads(typed.0, record, limits);
    assert(last_word(batch, i)) by {
        assert forall|j: int| i < j < batch.len() implies change_key(#[trigger] batch[j]) != change_key(batch[i]) by {
            lemma_stored_under(batch, limits, j);
            assert(mutation_key(mutations[j]) != place);
        }
    }
    assert(batch[i] == (ChangeView::Put { key: typed.0, record: typed.1 }));
}

/// The mutation is about a key under which a journal tells who it is.
pub open spec fn describes(mutation: MutationView, limits: StableJournalLimits) -> bool {
    exists|key: KeyView| #[trigger] stored_as(mutation, key, limits) && describing(key)
}

/// What a run writes first is about itself.
proof fn lemma_first_describes(writes: Seq<TypedView>, limits: StableJournalLimits, n: nat)
    requires
        n <= writes.len(),
        put_changes(writes, limits, n) is Ok,
        forall|i: int| 0 <= i < n ==> describing((#[trigger] writes[i]).0),
    ensures
        put_changes(writes, limits, n)->Ok_0.len() == n,
        forall|i: int| 0 <= i < n ==> describes(#[trigger] put_changes(writes, limits, n)->Ok_0[i], limits),
    decreases n,
{
    if n > 0 {
        lemma_first_describes(writes, limits, (n - 1) as nat);
        let before = put_changes(writes, limits, (n - 1) as nat)->Ok_0;
        let after = put_changes(writes, limits, n)->Ok_0;
        assert forall|i: int| 0 <= i < n implies describes(#[trigger] after[i], limits) by {
            if i < n - 1 {
                assert(describes(before[i], limits));
            } else {
                reveal(put_change);
                assert(describing(writes[n - 1].0));
                assert(stored_as(after[i], writes[n - 1].0, limits));
            }
        }
    }
}

/// What was decoded for recovery is stored under keys of its own.
proof fn lemma_kept_ordinary(records: Seq<StableRecordView>, limits: StableJournalLimits, n: nat)
    requires
        n <= records.len(),
        decode_prefix(records, limits, n) is Ok,
    ensures
        forall|typed: TypedView| #[trigger]
            decode_prefix(records, limits, n)->Ok_0.records.contains(typed) ==> key_shaped(typed.0) && !describing(typed.0),
    decreases n,
{
    if n > 0 {
        reveal(pair_checked);
        lemma_kept_ordinary(records, limits, (n - 1) as nat);
        let before = decode_prefix(records, limits, (n - 1) as nat)->Ok_0.records;
        let after = decode_prefix(records, limits, n)->Ok_0.records;
        lemma_key_canonical(records[n - 1].key, limits);
        let key = parse_key(records[n - 1].key, limits)->Ok_0;
        let record = parse_record(records[n - 1].payload, limits)->Ok_0;
        assert forall|typed: TypedView| #[trigger] after.contains(typed) implies key_shaped(typed.0) && !describing(
            typed.0,
        ) by {
            let at = choose|k: int| 0 <= k < after.len() && after[k] == typed;
            if at < before.len() {
                assert(before[at] == typed);
                assert(before.contains(typed));
            } else {
                assert(typed == (key, record));
                assert(ordinary(record));
            }
        }
    }
}

/// What a batch put is found again by the next run, though the end of the run was recorded behind it.
proof fn lemma_put_found(
    live: Map<Seq<u8>, Seq<u8>>,
    batch: Seq<ChangeView>,
    end: Seq<MutationView>,
    records: Seq<StableRecordView>,
    limits: StableJournalLimits,
    i: int,
)
    requires
        encode_batch(batch, limits, batch.len()) is Ok,
        keys_shaped(batch),
        0 <= i < batch.len(),
        batch[i] is Put,
        record_shaped(batch[i]->record),
        last_word(batch, i),
        forall|j: int| 0 <= j < end.len() ==> describes(#[trigger] end[j], limits),
        image_of(records, records.len()) == apply_mutations(
            apply_mutations(live, encode_batch(batch, limits, batch.len())->Ok_0, batch.len()),
            end,
            end.len(),
        ),
        decode_image(records, limits) is Ok,
    ensures
        ({
            let typed = (change_key(batch[i]), batch[i]->record);
            let all = decode_prefix(records, limits, records.len())->Ok_0.records;
            !suppressed(typed.1, all) ==> decode_image(records, limits)->Ok_0.records.contains(typed)
        }),
{
    let mutations = encode_batch(batch, limits, batch.len())->Ok_0;
    let key = change_key(batch[i]);
    let record = batch[i]->record;
    lemma_batch_written(batch, limits, batch.len());
    lemma_stored_under(batch, limits, i);
    lemma_last_stored(batch, limits, i, live);
    assert(!key_reserved(key));
    assert(put_change(key, record, limits) == Ok::<MutationView, StableJournalError>(mutations[i]));
    let stored = encode_key(key, limits)->Ok_0;
    let two = apply_mutations(live, mutations, mutations.len());
    assert(key_shaped(key));
    assert forall|j: int| 0 <= j < end.len() implies mutation_key(#[trigger] end[j]) != stored.flat() by {
        assert(describes(end[j], limits));
        let other = choose|other: KeyView| #[trigger] stored_as(end[j], other, limits) && describing(other);
        lemma_stored_apart(other, key, limits);
    }
    lemma_untouched(two, end, end.len(), stored.flat());
    assert(!(record is Migration)) by {
        reveal(put_change);
        reveal(pair_checked);
    }
    lemma_put_reads(key, record, limits);
    lemma_decoded_each(records, limits, records.len());
    lemma_image_carried(records, stored);
    let at = choose|k: int|
        0 <= k < records.len() && (#[trigger] records[k]).key == stored && records[k].payload == image_of(
            records,
            records.len(),
        )[stored.flat()];
    lemma_key_round_trip(key, limits);
    let all = decode_prefix(records, limits, records.len())->Ok_0.records;
    assert(parse_key(records[at].key, limits)->Ok_0 == key);
    assert(ordinary(record)) by {
        reveal(put_change);
        reveal(pair_checked);
    }
    assert(all.contains((key, record)));
    lemma_retained_each(all, all.len());
    let place = choose|k: int| 0 <= k < all.len() && all[k] == (key, record);
    assert(!suppressed(all[place].1, all) ==> retained(all, all.len()).contains(all[place]));
}

/// What a run leaves after a batch, with or without a clean end.
pub open spec fn left(first: JournalView, batch: Seq<ChangeView>, clean: bool) -> JournalView {
    let wrote = changed(first, encode_batch(batch, first.limits, batch.len())->Ok_0);
    if clean {
        ended(wrote)
    } else {
        wrote
    }
}

/// The next run on a store has the same server identity and handle key, another verifier and tag, and has not ended
/// cleanly. It knows the run before it, as ended cleanly only where the clean end was recorded. It recovers what that
/// run put, but for records that no run keeps; after a first run, it recovers nothing else.
pub proof fn lemma_two_runs(
    first_fence: Seq<u8>,
    first_generation: u64,
    first_records: Seq<StableRecordView>,
    first_fresh: FreshIdentity,
    first_started: i64,
    batch: Seq<ChangeView>,
    clean: bool,
    fence: Seq<u8>,
    generation: u64,
    records: Seq<StableRecordView>,
    fresh: FreshIdentity,
    started: i64,
    limits: StableJournalLimits,
)
    requires
        startup_checked(first_fence, first_fence, first_records, limits) is Ok,
        startup_writes(
            first_fence,
            first_generation,
            first_records,
            startup_checked(first_fence, first_fence, first_records, limits)->Ok_0,
            first_fresh,
            first_started,
            limits,
        ) is Ok,
        encode_batch(batch, limits, batch.len()) is Ok,
        keys_shaped(batch),
        forall|i: int| 0 <= i < batch.len() && batch[i] is Put ==> record_shaped((#[trigger] batch[i])->record),
        startup_checked(fence, fence, records, limits) is Ok,
        fresh_for(fresh, startup_checked(fence, fence, records, limits)->Ok_0),
        startup_writes(
            fence,
            generation,
            records,
            startup_checked(fence, fence, records, limits)->Ok_0,
            fresh,
            started,
            limits,
        ) is Ok,
        ({
            let first = began(
                first_fence,
                first_generation,
                first_records,
                startup_checked(first_fence, first_fence, first_records, limits)->Ok_0,
                first_fresh,
                first_started,
                limits,
            );
            &&& clean ==> put_change(
                KeyView::Boot,
                RecordView::Boot(BootView { clean_shutdown: true, ..first.boot }),
                limits,
            ) is Ok
            &&& image_of(records, records.len()) == left(first, batch, clean).live
        }),
    ensures
        ({
            let first = began(
                first_fence,
                first_generation,
                first_records,
                startup_checked(first_fence, first_fence, first_records, limits)->Ok_0,
                first_fresh,
                first_started,
                limits,
            );
            let next = began(
                fence,
                generation,
                records,
                startup_checked(fence, fence, records, limits)->Ok_0,
                fresh,
                started,
                limits,
            );
            let all = decode_prefix(records, limits, records.len())->Ok_0.records;
            &&& next.server_identity == first.server_identity
            &&& next.handle_key == first.handle_key
            &&& next.boot.verifier != first.boot.verifier
            &&& next.boot.boot_tag != first.boot.boot_tag
            &&& !next.boot.clean_shutdown
            &&& next.recovery.previous_boot == Some(BootView { clean_shutdown: clean, ..first.boot })
            &&& next.recovery.previous_shutdown == if clean {
                PreviousShutdown::Clean
            } else {
                PreviousShutdown::Unclean
            }
            &&& forall|i: int|
                0 <= i < batch.len() && batch[i] is Put && last_word(batch, i) && !suppressed(
                    (#[trigger] batch[i])->record,
                    all,
                ) ==> next.recovery.records.contains((change_key(batch[i]), batch[i]->record))
            &&& first_records.len() == 0 ==> forall|typed: TypedView| #[trigger]
                next.recovery.records.contains(typed) ==> exists|i: int|
                    0 <= i < batch.len() && last_word(batch, i) && #[trigger] batch[i] == (ChangeView::Put {
                        key: typed.0,
                        record: typed.1,
                    })
        }),
{
    let decoded = startup_checked(first_fence, first_fence, first_records, limits)->Ok_0;
    let first = began(first_fence, first_generation, first_records, decoded, first_fresh, first_started, limits);
    let mutations = encode_batch(batch, limits, batch.len())->Ok_0;
    let wrote = changed(first, mutations);
    let last = left(first, batch, clean);
    lemma_start_described(first_fence, first_fence, first_generation, first_records, first_fresh, first_started, limits);
    lemma_batch_described(first, batch);
    lemma_batch_written(batch, limits, batch.len());
    if clean {
        lemma_end_described(wrote);
    }
    lemma_next_run(last, fence, fence, generation, records, fresh, started);
    assert(!first.boot.clean_shutdown);
    assert(last.boot == (BootView { clean_shutdown: clean, ..first.boot }));
    let all = decode_prefix(records, limits, records.len())->Ok_0.records;
    let next = began(
        fence,
        generation,
        records,
        startup_checked(fence, fence, records, limits)->Ok_0,
        fresh,
        started,
        limits,
    );
    let boot = put_change(KeyView::Boot, RecordView::Boot(last.boot), limits)->Ok_0;
    let end: Seq<MutationView> = if clean {
        seq![boot]
    } else {
        seq![]
    };
    assert(last.live == apply_mutations(wrote.live, end, end.len()));
    if clean {
        lemma_put_reads(KeyView::Boot, RecordView::Boot(last.boot), limits);
        assert(stored_as(end[0], KeyView::Boot, limits));
    }
    assert(forall|i: int| 0 <= i < end.len() ==> describes(#[trigger] end[i], limits));
    assert forall|i: int|
        0 <= i < batch.len() && batch[i] is Put && last_word(batch, i) && !suppressed(
            (#[trigger] batch[i])->record,
            all,
        ) implies next.recovery.records.contains((change_key(batch[i]), batch[i]->record)) by {
        lemma_put_found(first.live, batch, end, records, limits, i);
    }
    if first_records.len() == 0 {
        let (journal, writes) = startup_writes(
            first_fence,
            first_generation,
            first_records,
            decoded,
            first_fresh,
            first_started,
            limits,
        )->Ok_0;
        let own = startup_records(true, journal.server_identity, journal.handle_key, journal.boot);
        assert(forall|i: int| 0 <= i < own.len() ==> describing((#[trigger] own[i]).0));
        lemma_first_describes(own, limits, own.len());
        assert(image_of(first_records, 0) =~= Map::empty());
        lemma_decoded_each(records, limits, records.len());
        lemma_retained_each(all, all.len());
        assert forall|typed: TypedView| #[trigger] next.recovery.records.contains(typed) implies exists|i: int|
            0 <= i < batch.len() && last_word(batch, i) && #[trigger] batch[i] == (ChangeView::Put {
                key: typed.0,
                record: typed.1,
            }) by {
            lemma_nothing_invented(records, limits, typed);
            lemma_kept_ordinary(records, limits, records.len());
            assert(all.contains(typed));
            lemma_all_put(writes, batch, end, typed, limits);
        }
    }
}

} // verus!
