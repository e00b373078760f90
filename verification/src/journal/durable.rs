//! What a run writes is what the next one finds.

use vstd::prelude::*;

use crate::canonical::lemma_key_canonical;
use crate::check::pair_checked;
use crate::commit::{apply_mutations, mutation_key, mutation_value, MutationView};
use crate::error::StableJournalError;
use crate::journal::laws::lemma_untouched;
use crate::journal::{encode_batch, put_change, ChangeView};
use crate::layout::{encode_key, encode_record, parse_key, parse_record};
use crate::limits::StableJournalLimits;
use crate::record::{
    key_reserved, key_shaped, lemma_flat_injective, record_shaped, KeyView, RecordView, StableKeyView, StableRecordView,
};
use crate::roundtrip::{lemma_key_injective, lemma_key_round_trip, lemma_record_round_trip};
use crate::snapshot::{decode_image, decode_prefix, encode_pair, image_of};
use crate::transfer::{retained, suppressed, TypedView};

verus! {

/// The key that a typed change is about.
pub open spec fn change_key(change: ChangeView) -> KeyView {
    match change {
        ChangeView::Put { key, .. } => key,
        ChangeView::Delete { key } => key,
    }
}

/// The keys of a batch have their fixed lengths.
pub open spec fn keys_shaped(batch: Seq<ChangeView>) -> bool {
    forall|i: int| 0 <= i < batch.len() ==> key_shaped(change_key(#[trigger] batch[i]))
}

/// No change behind that one is about the same key.
pub open spec fn last_word(batch: Seq<ChangeView>, i: int) -> bool {
    forall|j: int| i < j < batch.len() ==> change_key(#[trigger] batch[j]) != change_key(batch[i])
}

/// A record that stands for itself, rather than for the journal or a migration.
pub open spec fn ordinary(record: RecordView) -> bool {
    match record {
        RecordView::Schema(_) => false,
        RecordView::ServerIdentity(_) => false,
        RecordView::Boot(_) => false,
        RecordView::HandleKey(_) => false,
        RecordView::Migration(_) => false,
        _ => true,
    }
}

/// What a batch is written as, change by change.
pub(crate) proof fn lemma_batch_written(batch: Seq<ChangeView>, limits: StableJournalLimits, n: nat)
    requires
        n <= batch.len(),
        encode_batch(batch, limits, n) is Ok,
    ensures
        encode_batch(batch, limits, n)->Ok_0.len() == n,
        forall|i: int|
            0 <= i < n ==> !key_reserved(change_key(#[trigger] batch[i])) && match batch[i] {
                ChangeView::Put { key, record } => put_change(key, record, limits) == Ok::<MutationView, StableJournalError>(
                    encode_batch(batch, limits, n)->Ok_0[i],
                ),
                ChangeView::Delete { key } => encode_key(key, limits) is Ok && encode_batch(batch, limits, n)->Ok_0[i]
                    == (MutationView::Delete { key: encode_key(key, limits)->Ok_0 }),
            },
    decreases n,
{
    if n > 0 {
        lemma_batch_written(batch, limits, (n - 1) as nat);
    }
}

/// A change is stored under the stored form of its key.
pub(crate) proof fn lemma_stored_under(batch: Seq<ChangeView>, limits: StableJournalLimits, i: int)
    requires
        encode_batch(batch, limits, batch.len()) is Ok,
        0 <= i < batch.len(),
    ensures
        encode_key(change_key(batch[i]), limits) is Ok,
        mutation_key(encode_batch(batch, limits, batch.len())->Ok_0[i])
            == (encode_key(change_key(batch[i]), limits)->Ok_0).flat(),
{
    reveal(put_change);
    lemma_batch_written(batch, limits, batch.len());
    assert(!key_reserved(change_key(batch[i])));
}

/// The last change of a key is the one that counts.
pub(crate) proof fn lemma_last_counts(live: Map<Seq<u8>, Seq<u8>>, mutations: Seq<MutationView>, i: int, n: nat)
    requires
        0 <= i < n <= mutations.len(),
        forall|j: int| i < j < n ==> mutation_key(#[trigger] mutations[j]) != mutation_key(mutations[i]),
    ensures
        match mutation_value(mutations[i]) {
            Some(payload) => apply_mutations(live, mutations, n).contains_key(mutation_key(mutations[i]))
                && apply_mutations(live, mutations, n)[mutation_key(mutations[i])] == payload,
            None => !apply_mutations(live, mutations, n).contains_key(mutation_key(mutations[i])),
        },
    decreases n,
{
    if i < n - 1 {
        lemma_last_counts(live, mutations, i, (n - 1) as nat);
        assert(mutation_key(mutations[n - 1]) != mutation_key(mutations[i]));
    }
}

/// The last change of a typed key is the last change of its stored key.
pub(crate) proof fn lemma_last_stored(batch: Seq<ChangeView>, limits: StableJournalLimits, i: int, live: Map<Seq<u8>, Seq<u8>>)
    requires
        encode_batch(batch, limits, batch.len()) is Ok,
        keys_shaped(batch),
        0 <= i < batch.len(),
        last_word(batch, i),
    ensures
        ({
            let mutations = encode_batch(batch, limits, batch.len())->Ok_0;
            let after = apply_mutations(live, mutations, mutations.len());
            match mutation_value(mutations[i]) {
                Some(payload) => after.contains_key(mutation_key(mutations[i])) && after[mutation_key(mutations[i])]
                    == payload,
                None => !after.contains_key(mutation_key(mutations[i])),
            }
        }),
{
    let mutations = encode_batch(batch, limits, batch.len())->Ok_0;
    lemma_batch_written(batch, limits, batch.len());
    lemma_stored_under(batch, limits, i);
    assert forall|j: int| i < j < mutations.len() implies mutation_key(#[trigger] mutations[j]) != mutation_key(
        mutations[i],
    ) by {
        lemma_stored_under(batch, limits, j);
        let a = encode_key(change_key(batch[j]), limits)->Ok_0;
        let b = encode_key(change_key(batch[i]), limits)->Ok_0;
        if a.flat() == b.flat() {
            lemma_flat_injective(a, b);
            assert(key_shaped(change_key(batch[i])));
            assert(key_shaped(change_key(batch[j])));
            lemma_key_injective(change_key(batch[j]), change_key(batch[i]), limits);
        }
    }
    lemma_last_counts(live, mutations, i, mutations.len());
}

/// What an image that decodes holds, record by record.
pub(crate) proof fn lemma_decoded_each(records: Seq<StableRecordView>, limits: StableJournalLimits, n: nat)
    requires
        n <= records.len(),
        decode_prefix(records, limits, n) is Ok,
    ensures
        forall|i: int|
            0 <= i < n ==> {
                &&& parse_key((#[trigger] records[i]).key, limits) is Ok
                &&& parse_record(records[i].payload, limits) is Ok
                &&& ordinary(parse_record(records[i].payload, limits)->Ok_0) ==> decode_prefix(
                    records,
                    limits,
                    n,
                )->Ok_0.records.contains(
                    (parse_key(records[i].key, limits)->Ok_0, parse_record(records[i].payload, limits)->Ok_0),
                )
            },
        forall|typed: TypedView| #[trigger]
            decode_prefix(records, limits, n)->Ok_0.records.contains(typed) ==> exists|i: int|
                0 <= i < n && parse_key((#[trigger] records[i]).key, limits) == Ok::<KeyView, StableJournalError>(typed.0)
                    && parse_record(records[i].payload, limits) == Ok::<RecordView, StableJournalError>(typed.1),
        forall|i: int, j: int| 0 <= i < j < n ==> (#[trigger] records[i]).key != (#[trigger] records[j]).key,
    decreases n,
{
    if n > 0 {
        lemma_decoded_each(records, limits, (n - 1) as nat);
        let before = decode_prefix(records, limits, (n - 1) as nat)->Ok_0;
        let after = decode_prefix(records, limits, n)->Ok_0;
        let key = parse_key(records[n - 1].key, limits)->Ok_0;
        let record = parse_record(records[n - 1].payload, limits)->Ok_0;
        if ordinary(record) {
            assert(after.records == before.records.push((key, record)));
            assert forall|typed: TypedView| before.records.contains(typed) implies #[trigger] after.records.contains(
                typed,
            ) by {
                let at = choose|k: int| 0 <= k < before.records.len() && before.records[k] == typed;
                assert(after.records[at] == typed);
            }
            assert(after.records[before.records.len() as int] == (key, record));
            assert forall|typed: TypedView| #[trigger] after.records.contains(typed) && !before.records.contains(typed)
                implies typed == (key, record) by {
                let at = choose|k: int| 0 <= k < after.records.len() && after.records[k] == typed;
                if at < before.records.len() {
                    assert(before.records[at] == typed);
                }
            }
        } else {
            assert(after.records == before.records);
        }
        assert forall|typed: TypedView| #[trigger] after.records.contains(typed) implies exists|i: int|
            0 <= i < n && parse_key((#[trigger] records[i]).key, limits) == Ok::<KeyView, StableJournalError>(typed.0)
                && parse_record(records[i].payload, limits) == Ok::<RecordView, StableJournalError>(typed.1) by {
            if before.records.contains(typed) {
                let i = choose|i: int|
                    0 <= i < n - 1 && parse_key((#[trigger] records[i]).key, limits) == Ok::<
                        KeyView,
                        StableJournalError,
                    >(typed.0) && parse_record(records[i].payload, limits) == Ok::<RecordView, StableJournalError>(
                        typed.1,
                    );
                assert(0 <= i < n);
            } else {
                assert(records[n - 1].key == records[n - 1].key);
            }
        }
    }
}

/// What an image without repeated keys holds under a key.
pub(crate) proof fn lemma_image_held(records: Seq<StableRecordView>, n: nat, i: int)
    requires
        0 <= i < n <= records.len(),
        forall|a: int, b: int| 0 <= a < b < n ==> (#[trigger] records[a]).key != (#[trigger] records[b]).key,
    ensures
        image_of(records, n).contains_key(records[i].key.flat()),
        image_of(records, n)[records[i].key.flat()] == records[i].payload,
    decreases n,
{
    if i < n - 1 {
        lemma_image_held(records, (n - 1) as nat, i);
        assert(records[i].key != records[n - 1].key);
        lemma_flat_injective(records[i].key, records[n - 1].key);
    }
}

/// Some record of an image carries a key that the image holds.
pub(crate) proof fn lemma_image_carried(records: Seq<StableRecordView>, key: StableKeyView)
    requires
        image_of(records, records.len()).contains_key(key.flat()),
        forall|a: int, b: int| 0 <= a < b < records.len() ==> (#[trigger] records[a]).key != (#[trigger] records[b]).key,
    ensures
        exists|i: int|
            0 <= i < records.len() && (#[trigger] records[i]).key == key && records[i].payload == image_of(
                records,
                records.len(),
            )[key.flat()],
{
    crate::snapshot::lemma_image_keys(records, records.len(), key);
    let i = choose|i: int| 0 <= i < records.len() && (#[trigger] records[i]).key == key;
    lemma_image_held(records, records.len(), i);
}

/// What stays of a list of records.
pub(crate) proof fn lemma_retained_each(all: Seq<TypedView>, n: nat)
    requires
        n <= all.len(),
    ensures
        forall|i: int|
            0 <= i < n && !suppressed((#[trigger] all[i]).1, all) ==> retained(all, n).contains(all[i]),
        forall|typed: TypedView| #[trigger] retained(all, n).contains(typed) ==> all.contains(typed),
    decreases n,
{
    if n > 0 {
        lemma_retained_each(all, (n - 1) as nat);
        let before = retained(all, (n - 1) as nat);
        let after = retained(all, n);
        assert forall|typed: TypedView| before.contains(typed) implies #[trigger] after.contains(typed) by {
            let at = choose|k: int| 0 <= k < before.len() && before[k] == typed;
            assert(after[at] == typed);
        }
        if !suppressed(all[n - 1].1, all) {
            assert(after[before.len() as int] == all[n - 1]);
        }
        assert forall|typed: TypedView| #[trigger] after.contains(typed) implies all.contains(typed) by {
            let at = choose|k: int| 0 <= k < after.len() && after[k] == typed;
            if at < before.len() {
                assert(before[at] == typed);
                assert(before.contains(typed));
            } else {
                assert(all[n - 1] == typed);
            }
        }
    }
}

/// What a batch wrote is found again: once the store holds what the batch made of the records, a later run that can
/// read the store recovers the record under its key, unless it is one that no run keeps.
pub proof fn lemma_written_recovered(
    live: Map<Seq<u8>, Seq<u8>>,
    batch: Seq<ChangeView>,
    limits: StableJournalLimits,
    records: Seq<StableRecordView>,
    i: int,
)
    requires
        encode_batch(batch, limits, batch.len()) is Ok,
        keys_shaped(batch),
        0 <= i < batch.len(),
        batch[i] is Put,
        record_shaped(batch[i]->record),
        last_word(batch, i),
        image_of(records, records.len()) == apply_mutations(
            live,
            encode_batch(batch, limits, batch.len())->Ok_0,
            batch.len(),
        ),
        decode_image(records, limits) is Ok,
    ensures
        ({
            let typed = (change_key(batch[i]), batch[i]->record);
            let all = decode_prefix(records, limits, records.len())->Ok_0.records;
            &&& all.contains(typed)
            &&& !suppressed(typed.1, all) ==> decode_image(records, limits)->Ok_0.records.contains(typed)
        }),
{
    reveal(put_change);
    reveal(pair_checked);
    let mutations = encode_batch(batch, limits, batch.len())->Ok_0;
    let key = change_key(batch[i]);
    let record = batch[i]->record;
    lemma_batch_written(batch, limits, batch.len());
    lemma_stored_under(batch, limits, i);
    lemma_last_stored(batch, limits, i, live);
    assert(!key_reserved(key));
    assert(put_change(key, record, limits) == Ok::<MutationView, StableJournalError>(mutations[i]));
    let stored = encode_key(key, limits)->Ok_0;
    let payload = encode_record(record, limits)->Ok_0;
    lemma_decoded_each(records, limits, records.len());
    lemma_image_carried(records, stored);
    let at = choose|k: int|
        0 <= k < records.len() && (#[trigger] records[k]).key == stored && records[k].payload == image_of(
            records,
            records.len(),
        )[stored.flat()];
    assert(key_shaped(key));
    lemma_key_round_trip(key, limits);
    lemma_record_round_trip(record, limits);
    assert(ordinary(record));
    let all = decode_prefix(records, limits, records.len())->Ok_0.records;
    assert(parse_key(records[at].key, limits)->Ok_0 == key);
    assert(all.contains((key, record)));
    lemma_retained_each(all, all.len());
    let place = choose|k: int| 0 <= k < all.len() && all[k] == (key, record);
    assert(!suppressed(all[place].1, all) ==> retained(all, all.len()).contains(all[place]));
}

/// What a batch deleted is gone: no later run finds a record under its key.
pub proof fn lemma_deleted_gone(
    live: Map<Seq<u8>, Seq<u8>>,
    batch: Seq<ChangeView>,
    limits: StableJournalLimits,
    records: Seq<StableRecordView>,
    i: int,
    typed: TypedView,
)
    requires
        encode_batch(batch, limits, batch.len()) is Ok,
        keys_shaped(batch),
        0 <= i < batch.len(),
        batch[i] is Delete,
        last_word(batch, i),
        image_of(records, records.len()) == apply_mutations(
            live,
            encode_batch(batch, limits, batch.len())->Ok_0,
            batch.len(),
        ),
        decode_image(records, limits) is Ok,
        decode_image(records, limits)->Ok_0.records.contains(typed),
    ensures
        typed.0 != change_key(batch[i]),
{
    let key = change_key(batch[i]);
    lemma_batch_written(batch, limits, batch.len());
    lemma_stored_under(batch, limits, i);
    lemma_last_stored(batch, limits, i, live);
    assert(!key_reserved(key));
    lemma_decoded_each(records, limits, records.len());
    let all = decode_prefix(records, limits, records.len())->Ok_0.records;
    lemma_retained_each(all, all.len());
    assert(all.contains(typed));
    let at = choose|k: int|
        0 <= k < records.len() && parse_key((#[trigger] records[k]).key, limits) == Ok::<KeyView, StableJournalError>(
            typed.0,
        ) && parse_record(records[k].payload, limits) == Ok::<RecordView, StableJournalError>(typed.1);
    if typed.0 == key {
        lemma_key_canonical(records[at].key, limits);
        lemma_image_held(records, records.len(), at);
    }
}

/// What a batch is not about stays: a record that was stored is found again by a later run as it was.
pub proof fn lemma_kept_recovered(
    live: Map<Seq<u8>, Seq<u8>>,
    batch: Seq<ChangeView>,
    limits: StableJournalLimits,
    records: Seq<StableRecordView>,
    typed: TypedView,
)
    requires
        encode_batch(batch, limits, batch.len()) is Ok,
        keys_shaped(batch),
        key_shaped(typed.0),
        record_shaped(typed.1),
        ordinary(typed.1),
        encode_pair(typed.0, typed.1, limits) is Ok,
        live.contains_key((encode_pair(typed.0, typed.1, limits)->Ok_0).key.flat()),
        live[(encode_pair(typed.0, typed.1, limits)->Ok_0).key.flat()] == (encode_pair(
            typed.0,
            typed.1,
            limits,
        )->Ok_0).payload,
        forall|j: int| 0 <= j < batch.len() ==> change_key(#[trigger] batch[j]) != typed.0,
        image_of(records, records.len()) == apply_mutations(
            live,
            encode_batch(batch, limits, batch.len())->Ok_0,
            batch.len(),
        ),
        decode_image(records, limits) is Ok,
    ensures
        ({
            let all = decode_prefix(records, limits, records.len())->Ok_0.records;
            &&& all.contains(typed)
            &&& !suppressed(typed.1, all) ==> decode_image(records, limits)->Ok_0.records.contains(typed)
        }),
{
    reveal(pair_checked);
    let stored = encode_key(typed.0, limits)->Ok_0;
    let mutations = encode_batch(batch, limits, batch.len())->Ok_0;
    lemma_batch_written(batch, limits, batch.len());
    assert forall|j: int| 0 <= j < mutations.len() implies mutation_key(#[trigger] mutations[j]) != stored.flat() by {
        lemma_stored_under(batch, limits, j);
        let a = encode_key(change_key(batch[j]), limits)->Ok_0;
        if a.flat() == stored.flat() {
            lemma_flat_injective(a, stored);
            assert(key_shaped(change_key(batch[j])));
            lemma_key_injective(change_key(batch[j]), typed.0, limits);
        }
    }
    lemma_untouched(live, mutations, mutations.len(), stored.flat());
    lemma_decoded_each(records, limits, records.len());
    lemma_image_carried(records, stored);
    let at = choose|k: int|
        0 <= k < records.len() && (#[trigger] records[k]).key == stored && records[k].payload == image_of(
            records,
            records.len(),
        )[stored.flat()];
    lemma_key_round_trip(typed.0, limits);
    lemma_record_round_trip(typed.1, limits);
    let all = decode_prefix(records, limits, records.len())->Ok_0.records;
    assert(parse_key(records[at].key, limits)->Ok_0 == typed.0);
    assert(all.contains(typed));
    lemma_retained_each(all, all.len());
    let place = choose|k: int| 0 <= k < all.len() && all[k] == typed;
    assert(!suppressed(all[place].1, all) ==> retained(all, all.len()).contains(all[place]));
}

/// Nothing is found that was not stored: under the key of a recovered record, the store holds that record.
pub proof fn lemma_nothing_invented(records: Seq<StableRecordView>, limits: StableJournalLimits, typed: TypedView)
    requires
        decode_image(records, limits) is Ok,
        decode_image(records, limits)->Ok_0.records.contains(typed),
    ensures
        encode_key(typed.0, limits) is Ok,
        image_of(records, records.len()).contains_key((encode_key(typed.0, limits)->Ok_0).flat()),
        parse_record(image_of(records, records.len())[(encode_key(typed.0, limits)->Ok_0).flat()], limits) == Ok::<
            RecordView,
            StableJournalError,
        >(typed.1),
{
    lemma_decoded_each(records, limits, records.len());
    let all = decode_prefix(records, limits, records.len())->Ok_0.records;
    lemma_retained_each(all, all.len());
    assert(all.contains(typed));
    let at = choose|k: int|
        0 <= k < records.len() && parse_key((#[trigger] records[k]).key, limits) == Ok::<KeyView, StableJournalError>(
            typed.0,
        ) && parse_record(records[k].payload, limits) == Ok::<RecordView, StableJournalError>(typed.1);
    lemma_key_canonical(records[at].key, limits);
    lemma_image_held(records, records.len(), at);
}

} // verus!
