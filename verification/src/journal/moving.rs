//! What a migration carries: all of the state of its export, none of another one, and each record as it is stored.

use vstd::prelude::*;

use crate::canonical::{lemma_key_canonical, lemma_record_canonical};
use crate::codec::{ExportId, StableObject};
use crate::error::StableJournalError;
use crate::journal::durable::{lemma_decoded_each, lemma_retained_each, ordinary};
use crate::journal::laws::lemma_sanitize_repeats;
use crate::journal::JournalView;
use crate::layout::{check_transfer, checked, parse_key, parse_record};
use crate::limits::StableJournalLimits;
use crate::protocol::{file_of, other_of, Nfs4Limits};
use crate::record::{CapsuleView, ClientView, KeyView, RecordView, ReplayOwnerKind, ReplayView, StableRecordView};
use crate::recovery::{
    hydrated_lock, hydrated_open, hydrates, is_lock_as, is_open_as, locks_hydrated, RecoveredStateView,
};
use crate::snapshot::{
    client_of_export, decode_image, decode_prefix, encode_pair, encode_pairs, export_clients, export_records,
    export_replies, export_selection, export_states, owner_of_export, reply_of_export, sorted_records, state_of_export,
    upper_place,
};
use crate::transfer::{
    ancestry_checked, confirmed_as, is_ancestor, retained, revokes, sanitize_transfer, suppressed, transfer_typed,
    Transfer, TypedView,
};
use crate::wire::sanitize_capsule;

verus! {

/// The object that an open, a lock or a delegation is of.
pub open spec fn object_of(record: RecordView) -> Option<StableObject> {
    match record {
        RecordView::Open(open) => Some(open.object),
        RecordView::Lock(lock) => Some(lock.object),
        RecordView::Delegation(delegation) => Some(delegation.object),
        _ => None,
    }
}

/// The record is an open, a lock or a delegation of that export.
pub open spec fn lives_in(record: RecordView, export_id: ExportId) -> bool {
    object_of(record) matches Some(object) && object.export_id == export_id
}

/// What stays of a list of records is not suppressed by the list.
proof fn lemma_retained_sound(all: Seq<TypedView>, n: nat, typed: TypedView)
    requires
        n <= all.len(),
        retained(all, n).contains(typed),
    ensures
        !suppressed(typed.1, all),
        all.contains(typed),
    decreases n,
{
    if n > 0 {
        let before = retained(all, (n - 1) as nat);
        let after = retained(all, n);
        let at = after.index_of(typed);
        if at < before.len() {
            assert(before[at] == typed);
            lemma_retained_sound(all, (n - 1) as nat, typed);
        } else {
            assert(all[n - 1] == typed);
        }
    }
}

/// What stays of a list of records stays again.
proof fn lemma_stays_again(all: Seq<TypedView>, typed: TypedView)
    requires
        retained(all, all.len()).contains(typed),
    ensures
        ({
            let kept = retained(all, all.len());
            &&& !suppressed(typed.1, kept)
            &&& retained(kept, kept.len()).contains(typed)
        }),
{
    let kept = retained(all, all.len());
    lemma_retained_sound(all, all.len(), typed);
    lemma_retained_each(all, all.len());
    if let RecordView::Delegation(delegation) = typed.1 {
        if exists|i: int| 0 <= i < kept.len() && revokes((#[trigger] kept[i]).1, delegation.state_token) {
            let i = choose|i: int| 0 <= i < kept.len() && revokes((#[trigger] kept[i]).1, delegation.state_token);
            assert(kept.contains(kept[i]));
            lemma_retained_sound(all, all.len(), kept[i]);
        }
        let c = choose|i: int| 0 <= i < all.len() && confirmed_as((#[trigger] all[i]).1, delegation.client_id);
        assert(!suppressed(all[c].1, all));
        assert(kept.contains(all[c]));
        let at = kept.index_of(all[c]);
        assert(confirmed_as(kept[at].1, delegation.client_id));
    }
    lemma_retained_each(kept, kept.len());
    let at = kept.index_of(typed);
    assert(kept[at] == typed);
}

/// The states that are selected are those of the export.
proof fn lemma_states_selected(records: Seq<TypedView>, export_id: ExportId, n: nat)
    requires
        n <= records.len(),
    ensures
        forall|i: int|
            0 <= i < n && lives_in((#[trigger] records[i]).1, export_id) ==> export_states(
                records,
                export_id,
                n,
            ).contains(records[i]),
        forall|typed: TypedView| #[trigger]
            export_states(records, export_id, n).contains(typed) ==> lives_in(typed.1, export_id) && records.contains(typed),
    decreases n,
{
    if n > 0 {
        lemma_states_selected(records, export_id, (n - 1) as nat);
        let before = export_states(records, export_id, (n - 1) as nat);
        let after = export_states(records, export_id, n);
        assert(records.contains(records[n - 1]));
        assert forall|typed: TypedView| before.contains(typed) implies #[trigger] after.contains(typed) by {
            let at = before.index_of(typed);
            assert(after[at] == typed);
        }
        if lives_in(records[n - 1].1, export_id) {
            assert(after[before.len() as int] == records[n - 1]);
        }
        assert forall|typed: TypedView| #[trigger] after.contains(typed) implies lives_in(typed.1, export_id)
            && records.contains(typed) by {
            let at = after.index_of(typed);
            if at < before.len() {
                assert(before[at] == typed);
                assert(before.contains(typed));
            }
        }
    }
}

/// The replies and clients that are selected are replies and clients of the list.
proof fn lemma_others_selected(records: Seq<TypedView>, export_id: ExportId, n: nat)
    requires
        n <= records.len(),
    ensures
        forall|typed: TypedView| #[trigger]
            export_replies(records, export_id, n).contains(typed) ==> typed.1 is Replay && records.contains(typed),
        forall|typed: TypedView| #[trigger]
            export_clients(records, export_id, n).contains(typed) ==> typed.1 is Client && records.contains(typed),
    decreases n,
{
    if n > 0 {
        lemma_others_selected(records, export_id, (n - 1) as nat);
        let replies = export_replies(records, export_id, (n - 1) as nat);
        let clients = export_clients(records, export_id, (n - 1) as nat);
        assert(records.contains(records[n - 1]));
        assert forall|typed: TypedView| #[trigger] export_replies(records, export_id, n).contains(typed) implies typed.1 is Replay
            && records.contains(typed) by {
            let at = export_replies(records, export_id, n).index_of(typed);
            if at < replies.len() {
                assert(replies[at] == typed);
                assert(replies.contains(typed));
            }
        }
        assert forall|typed: TypedView| #[trigger] export_clients(records, export_id, n).contains(typed) implies typed.1 is Client
            && records.contains(typed) by {
            let at = export_clients(records, export_id, n).index_of(typed);
            if at < clients.len() {
                assert(clients[at] == typed);
                assert(clients.contains(typed));
            }
        }
    }
}

/// What a selection holds.
proof fn lemma_selected(records: Seq<TypedView>, export_id: ExportId, typed: TypedView)
    ensures
        records.contains(typed) && lives_in(typed.1, export_id) ==> export_selection(records, export_id).contains(typed),
        export_selection(records, export_id).contains(typed) ==> records.contains(typed) && (lives_in(typed.1, export_id)
            || typed.1 is Replay || typed.1 is Client),
{
    let states = export_states(records, export_id, records.len());
    let replies = export_replies(records, export_id, records.len());
    let clients = export_clients(records, export_id, records.len());
    let all = export_selection(records, export_id);
    lemma_states_selected(records, export_id, records.len());
    lemma_others_selected(records, export_id, records.len());
    if records.contains(typed) && lives_in(typed.1, export_id) {
        let i = records.index_of(typed);
        assert(records[i] == typed);
        let at = states.index_of(typed);
        assert(all[at] == typed);
    }
    if all.contains(typed) {
        let at = all.index_of(typed);
        if at < states.len() {
            assert(states[at] == typed);
            assert(states.contains(typed));
        } else if at < states.len() + replies.len() {
            assert(replies[at - states.len()] == typed);
            assert(replies.contains(typed));
        } else {
            assert(clients[at - states.len() - replies.len()] == typed);
            assert(clients.contains(typed));
        }
    }
}

/// The stored forms of typed records, one by one.
proof fn lemma_encoded_each(records: Seq<TypedView>, limits: StableJournalLimits, n: nat)
    requires
        n <= records.len(),
        encode_pairs(records, limits, n) is Ok,
    ensures
        encode_pairs(records, limits, n)->Ok_0.len() == n,
        forall|i: int|
            0 <= i < n ==> encode_pair((#[trigger] records[i]).0, records[i].1, limits) == Ok::<
                StableRecordView,
                StableJournalError,
            >(encode_pairs(records, limits, n)->Ok_0[i]),
    decreases n,
{
    if n > 0 {
        lemma_encoded_each(records, limits, (n - 1) as nat);
    }
}

/// A place is within the list.
proof fn lemma_place_within(records: Seq<StableRecordView>, key: Seq<u8>, n: nat)
    ensures
        upper_place(records, key, n) <= n,
    decreases n,
{
    if n > 0 {
        lemma_place_within(records, key, (n - 1) as nat);
    }
}

/// Records that are put in order are the same records.
proof fn lemma_sorted_same(records: Seq<StableRecordView>, n: nat, one: StableRecordView)
    requires
        n <= records.len(),
    ensures
        sorted_records(records, n).contains(one) <==> exists|i: int| 0 <= i < n && #[trigger] records[i] == one,
    decreases n,
{
    if n > 0 {
        lemma_sorted_same(records, (n - 1) as nat, one);
        let rest = sorted_records(records, (n - 1) as nat);
        let last = records[n - 1];
        let at = upper_place(rest, last.key.flat(), rest.len()) as int;
        lemma_place_within(rest, last.key.flat(), rest.len());
        let after = rest.insert(at, last);
        assert(after[at] == last);
        if rest.contains(one) {
            let k = rest.index_of(one);
            if k < at {
                assert(after[k] == one);
            } else {
                assert(after[k + 1] == one);
            }
        }
        if after.contains(one) && one != last {
            let k = after.index_of(one);
            if k < at {
                assert(rest[k] == one);
            } else {
                assert(rest[k - 1] == one);
            }
            assert(rest.contains(one));
        }
        if exists|i: int| 0 <= i < n - 1 && #[trigger] records[i] == one {
            let i = choose|i: int| 0 <= i < n - 1 && #[trigger] records[i] == one;
            assert(0 <= i < n && records[i] == one);
        }
    }
}

/// A record that was read from a store is stored as it was.
proof fn lemma_stored_again(stored: StableRecordView, typed: TypedView, limits: StableJournalLimits)
    requires
        parse_key(stored.key, limits) == Ok::<KeyView, StableJournalError>(typed.0),
        parse_record(stored.payload, limits) == Ok::<RecordView, StableJournalError>(typed.1),
        !(typed.1 is Migration),
        encode_pair(typed.0, typed.1, limits) is Ok,
    ensures
        encode_pair(typed.0, typed.1, limits) == Ok::<StableRecordView, StableJournalError>(stored),
{
    lemma_key_canonical(stored.key, limits);
    lemma_record_canonical(stored.payload, limits);
}

/// What of a store's records a migration snapshot holds, typed record by typed record.
proof fn lemma_exported(
    records: Seq<StableRecordView>,
    limits: StableJournalLimits,
    export_id: ExportId,
    selected: Seq<StableRecordView>,
    stored: StableRecordView,
)
    requires
        decode_image(records, limits) is Ok,
        export_records(decode_image(records, limits)->Ok_0.records, export_id, limits) == Ok::<
            Seq<StableRecordView>,
            StableJournalError,
        >(selected),
    ensures
        ({
            let kept = decode_image(records, limits)->Ok_0.records;
            let typed = (parse_key(stored.key, limits)->Ok_0, parse_record(stored.payload, limits)->Ok_0);
            &&& records.contains(stored) && kept.contains(typed) && lives_in(typed.1, export_id) ==> selected.contains(stored)
            &&& selected.contains(stored) ==> {
                &&& records.contains(stored)
                &&& parse_key(stored.key, limits) is Ok
                &&& parse_record(stored.payload, limits) is Ok
                &&& kept.contains(typed)
                &&& lives_in(typed.1, export_id) || typed.1 is Replay || typed.1 is Client
            }
        }),
{
    let all = decode_prefix(records, limits, records.len())->Ok_0.records;
    let kept = decode_image(records, limits)->Ok_0.records;
    let again = retained(kept, kept.len());
    let selection = export_selection(again, export_id);
    let encoded = encode_pairs(selection, limits, selection.len())->Ok_0;
    let typed = (parse_key(stored.key, limits)->Ok_0, parse_record(stored.payload, limits)->Ok_0);
    lemma_decoded_each(records, limits, records.len());
    lemma_encoded_each(selection, limits, selection.len());
    lemma_sorted_same(encoded, encoded.len(), stored);
    if records.contains(stored) && kept.contains(typed) && lives_in(typed.1, export_id) {
        let m = records.index_of(stored);
        assert(records[m] == stored);
        lemma_stays_again(all, typed);
        lemma_selected(again, export_id, typed);
        let k = selection.index_of(typed);
        assert(selection[k] == typed);
        lemma_stored_again(stored, typed, limits);
        assert(encoded[k] == stored);
    }
    if selected.contains(stored) {
        let k = choose|k: int| 0 <= k < encoded.len() && #[trigger] encoded[k] == stored;
        let from = selection[k];
        assert(selection.contains(from));
        lemma_selected(again, export_id, from);
        lemma_retained_each(kept, kept.len());
        assert(kept.contains(from));
        lemma_retained_each(all, all.len());
        assert(all.contains(from));
        let m = choose|m: int|
            0 <= m < records.len() && parse_key((#[trigger] records[m]).key, limits) == Ok::<KeyView, StableJournalError>(
                from.0,
            ) && parse_record(records[m].payload, limits) == Ok::<RecordView, StableJournalError>(from.1);
        lemma_stored_again(records[m], from, limits);
        assert(records[m] == stored);
    }
}

/// A migration carries every open and every lock of its export, and every delegation of it that the source still holds:
/// each of them is among the records of the snapshot, exactly as it is stored.
pub proof fn lemma_migration_complete(
    journal: JournalView,
    session_fence: Seq<u8>,
    fence: Seq<u8>,
    generation: u64,
    records: Seq<StableRecordView>,
    export_id: ExportId,
    m: int,
    record: RecordView,
)
    requires
        journal.migration_snapshot(session_fence, fence, generation, records, export_id) is Ok,
        0 <= m < records.len(),
        parse_record(records[m].payload, journal.limits) == Ok::<RecordView, StableJournalError>(record),
        match record {
            RecordView::Open(open) => open.object.export_id == export_id,
            RecordView::Lock(lock) => lock.object.export_id == export_id,
            RecordView::Delegation(delegation) => delegation.object.export_id == export_id && decode_image(
                records,
                journal.limits,
            )->Ok_0.records.contains((parse_key(records[m].key, journal.limits)->Ok_0, record)),
            _ => false,
        },
    ensures
        (journal.migration_snapshot(session_fence, fence, generation, records, export_id)->Ok_0).records.contains(
            records[m],
        ),
{
    let limits = journal.limits;
    let selected = (journal.migration_snapshot(session_fence, fence, generation, records, export_id)->Ok_0).records;
    let all = decode_prefix(records, limits, records.len())->Ok_0.records;
    let typed = (parse_key(records[m].key, limits)->Ok_0, record);
    lemma_decoded_each(records, limits, records.len());
    assert(ordinary(record));
    assert(all.contains(typed));
    let at = all.index_of(typed);
    lemma_retained_each(all, all.len());
    assert(all[at] == typed);
    assert(records.contains(records[m]));
    lemma_exported(records, limits, export_id, selected, records[m]);
}

/// A migration carries nothing that is not stored at the source, and no open, lock or delegation of another export: what
/// is not state of its export is a reply or a client.
pub proof fn lemma_migration_sound(
    journal: JournalView,
    session_fence: Seq<u8>,
    fence: Seq<u8>,
    generation: u64,
    records: Seq<StableRecordView>,
    export_id: ExportId,
    k: int,
)
    requires
        journal.migration_snapshot(session_fence, fence, generation, records, export_id) is Ok,
        0 <= k < (journal.migration_snapshot(session_fence, fence, generation, records, export_id)->Ok_0).records.len(),
    ensures
        ({
            let one = (journal.migration_snapshot(session_fence, fence, generation, records, export_id)->Ok_0).records[k];
            &&& records.contains(one)
            &&& parse_record(one.payload, journal.limits) is Ok
            &&& match parse_record(one.payload, journal.limits)->Ok_0 {
                RecordView::Open(open) => open.object.export_id == export_id,
                RecordView::Lock(lock) => lock.object.export_id == export_id,
                RecordView::Delegation(delegation) => delegation.object.export_id == export_id,
                RecordView::Replay(_) => true,
                RecordView::Client(_) => true,
                _ => false,
            }
        }),
{
    let selected = (journal.migration_snapshot(session_fence, fence, generation, records, export_id)->Ok_0).records;
    assert(selected.contains(selected[k]));
    lemma_exported(records, journal.limits, export_id, selected, selected[k]);
}

/// A store that can be read keeps every record but revocations, and delegations that were revoked or whose client has no
/// confirmed record.
pub proof fn lemma_image_keeps(records: Seq<StableRecordView>, limits: StableJournalLimits, typed: TypedView)
    requires
        decode_image(records, limits) is Ok,
    ensures
        ({
            let all = decode_prefix(records, limits, records.len())->Ok_0.records;
            decode_image(records, limits)->Ok_0.records.contains(typed) <==> all.contains(typed) && match typed.1 {
                RecordView::Revocation(_) => false,
                RecordView::Delegation(delegation) => {
                    &&& forall|i: int|
                        0 <= i < all.len() ==> ((#[trigger] all[i]).1 matches RecordView::Revocation(gone)
                            ==> gone.state_token != delegation.state_token)
                    &&& exists|i: int|
                        0 <= i < all.len() && ((#[trigger] all[i]).1 matches RecordView::Client(client) && client.confirmed
                            && client.client_id == delegation.client_id)
                },
                _ => true,
            }
        }),
{
    let all = decode_prefix(records, limits, records.len())->Ok_0.records;
    lemma_retained_each(all, all.len());
    if retained(all, all.len()).contains(typed) {
        lemma_retained_sound(all, all.len(), typed);
        if let RecordView::Delegation(delegation) = typed.1 {
            assert forall|i: int| 0 <= i < all.len() implies ((#[trigger] all[i]).1 matches RecordView::Revocation(gone)
                ==> gone.state_token != delegation.state_token) by {
                assert(!revokes(all[i].1, delegation.state_token));
            }
            let c = choose|i: int| 0 <= i < all.len() && confirmed_as((#[trigger] all[i]).1, delegation.client_id);
            assert(all[c].1 is Client);
        }
    }
    if all.contains(typed) && !retained(all, all.len()).contains(typed) {
        let at = all.index_of(typed);
        assert(all[at] == typed);
        assert(suppressed(all[at].1, all));
        if let RecordView::Delegation(delegation) = typed.1 {
            if exists|i: int| 0 <= i < all.len() && revokes((#[trigger] all[i]).1, delegation.state_token) {
                let i = choose|i: int| 0 <= i < all.len() && revokes((#[trigger] all[i]).1, delegation.state_token);
                assert(all[i].1 is Revocation);
            } else {
                assert forall|i: int| 0 <= i < all.len() implies !((#[trigger] all[i]).1 matches RecordView::Client(client)
                    && client.confirmed && client.client_id == delegation.client_id) by {
                    assert(!confirmed_as(all[i].1, delegation.client_id));
                }
            }
        }
    }
}

/// The open or lock is of that export, and its owner is the one that the reply was sent to.
pub open spec fn replied_there(record: RecordView, reply: ReplayView, export_id: ExportId) -> bool {
    match record {
        RecordView::Open(open) => {
            &&& reply.owner_kind == ReplayOwnerKind::Open
            &&& open.object.export_id == export_id
            &&& open.client_id == reply.client_id
            &&& open.owner == reply.owner
        },
        RecordView::Lock(lock) => {
            &&& reply.owner_kind == ReplayOwnerKind::Lock
            &&& lock.object.export_id == export_id
            &&& lock.client_id == reply.client_id
            &&& lock.owner == reply.owner
        },
        _ => false,
    }
}

/// The reply is about an object of that export.
pub open spec fn about_export(reply: ReplayView, export_id: ExportId) -> bool {
    reply.current_object matches Some(object) && object.export_id == export_id
}

/// The stored record is an open or lock of that export, whose owner is the one that the reply was sent to.
pub open spec fn sent_to_owner(
    stored: StableRecordView,
    limits: StableJournalLimits,
    reply: ReplayView,
    export_id: ExportId,
) -> bool {
    parse_record(stored.payload, limits) matches Ok(record) && replied_there(record, reply, export_id)
}

/// The replies and the clients of an export are selected.
proof fn lemma_parties_selected(records: Seq<TypedView>, export_id: ExportId, n: nat, i: int)
    requires
        0 <= i < n <= records.len(),
    ensures
        reply_of_export(records, records[i].1, export_id) ==> export_replies(records, export_id, n).contains(records[i]),
        (records[i].1 matches RecordView::Client(client) && client_of_export(records, client.client_id, export_id))
            ==> export_clients(records, export_id, n).contains(records[i]),
    decreases n,
{
    let replies = export_replies(records, export_id, n);
    let clients = export_clients(records, export_id, n);
    if i < n - 1 {
        lemma_parties_selected(records, export_id, (n - 1) as nat, i);
        let fewer_replies = export_replies(records, export_id, (n - 1) as nat);
        let fewer_clients = export_clients(records, export_id, (n - 1) as nat);
        if fewer_replies.contains(records[i]) {
            let at = fewer_replies.index_of(records[i]);
            assert(replies[at] == records[i]);
        }
        if fewer_clients.contains(records[i]) {
            let at = fewer_clients.index_of(records[i]);
            assert(clients[at] == records[i]);
        }
    } else {
        if reply_of_export(records, records[i].1, export_id) {
            assert(replies[replies.len() - 1] == records[i]);
        }
        if records[i].1 matches RecordView::Client(client) && client_of_export(records, client.client_id, export_id) {
            assert(clients[clients.len() - 1] == records[i]);
        }
    }
}

/// A stored record that is selected goes into the snapshot as it is stored.
proof fn lemma_selected_exported(
    records: Seq<StableRecordView>,
    limits: StableJournalLimits,
    export_id: ExportId,
    selected: Seq<StableRecordView>,
    m: int,
)
    requires
        decode_image(records, limits) is Ok,
        export_records(decode_image(records, limits)->Ok_0.records, export_id, limits) == Ok::<
            Seq<StableRecordView>,
            StableJournalError,
        >(selected),
        0 <= m < records.len(),
        parse_record(records[m].payload, limits) matches Ok(record) && !(record is Migration),
        ({
            let kept = decode_image(records, limits)->Ok_0.records;
            export_selection(retained(kept, kept.len()), export_id).contains(
                (parse_key(records[m].key, limits)->Ok_0, parse_record(records[m].payload, limits)->Ok_0),
            )
        }),
    ensures
        selected.contains(records[m]),
{
    let kept = decode_image(records, limits)->Ok_0.records;
    let selection = export_selection(retained(kept, kept.len()), export_id);
    let encoded = encode_pairs(selection, limits, selection.len())->Ok_0;
    let typed = (parse_key(records[m].key, limits)->Ok_0, parse_record(records[m].payload, limits)->Ok_0);
    lemma_decoded_each(records, limits, records.len());
    lemma_encoded_each(selection, limits, selection.len());
    lemma_sorted_same(encoded, encoded.len(), records[m]);
    let k = selection.index_of(typed);
    assert(selection[k] == typed);
    lemma_stored_again(records[m], typed, limits);
    assert(encoded[k] == records[m]);
}

/// A stored record that is neither a revocation nor a delegation, in the list from which the records of an export are
/// selected.
proof fn lemma_listed(records: Seq<StableRecordView>, limits: StableJournalLimits, m: int) -> (at: int)
    requires
        decode_image(records, limits) is Ok,
        0 <= m < records.len(),
        parse_record(records[m].payload, limits) matches Ok(record) && (record is Open || record is Lock || record is Replay
            || record is Client),
    ensures
        ({
            let kept = decode_image(records, limits)->Ok_0.records;
            let again = retained(kept, kept.len());
            0 <= at < again.len() && again[at] == (
                parse_key(records[m].key, limits)->Ok_0,
                parse_record(records[m].payload, limits)->Ok_0,
            )
        }),
{
    let all = decode_prefix(records, limits, records.len())->Ok_0.records;
    let kept = decode_image(records, limits)->Ok_0.records;
    let again = retained(kept, kept.len());
    let typed = (parse_key(records[m].key, limits)->Ok_0, parse_record(records[m].payload, limits)->Ok_0);
    lemma_decoded_each(records, limits, records.len());
    assert(ordinary(typed.1));
    assert(all.contains(typed));
    let i = all.index_of(typed);
    lemma_retained_each(all, all.len());
    assert(all[i] == typed);
    lemma_stays_again(all, typed);
    again.index_of(typed)
}

/// A migration carries the last reply to every owner that has an open or a lock of the export, and every reply that is
/// about an object of it.
pub proof fn lemma_migration_replies(
    journal: JournalView,
    session_fence: Seq<u8>,
    fence: Seq<u8>,
    generation: u64,
    records: Seq<StableRecordView>,
    export_id: ExportId,
    m: int,
    reply: ReplayView,
    j: int,
)
    requires
        journal.migration_snapshot(session_fence, fence, generation, records, export_id) is Ok,
        0 <= m < records.len(),
        parse_record(records[m].payload, journal.limits) == Ok::<RecordView, StableJournalError>(RecordView::Replay(reply)),
        about_export(reply, export_id) || (0 <= j < records.len() && sent_to_owner(
            records[j],
            journal.limits,
            reply,
            export_id,
        )),
    ensures
        (journal.migration_snapshot(session_fence, fence, generation, records, export_id)->Ok_0).records.contains(
            records[m],
        ),
{
    let limits = journal.limits;
    let selected = (journal.migration_snapshot(session_fence, fence, generation, records, export_id)->Ok_0).records;
    let kept = decode_image(records, limits)->Ok_0.records;
    let again = retained(kept, kept.len());
    let at = lemma_listed(records, limits, m);
    if !about_export(reply, export_id) {
        let of = lemma_listed(records, limits, j);
        assert(owner_of_export(again[of].1, export_id, reply.client_id, reply.owner_kind, reply.owner));
    }
    assert(reply_of_export(again, again[at].1, export_id));
    lemma_parties_selected(again, export_id, again.len(), at);
    let states = export_states(again, export_id, again.len());
    let replies = export_replies(again, export_id, again.len());
    let k = replies.index_of(again[at]);
    assert(export_selection(again, export_id)[states.len() + k] == again[at]);
    lemma_selected_exported(records, limits, export_id, selected, m);
}

/// A migration carries the record of every client that has an open or a lock of the export, or a reply that is about an
/// object of it.
pub proof fn lemma_migration_clients(
    journal: JournalView,
    session_fence: Seq<u8>,
    fence: Seq<u8>,
    generation: u64,
    records: Seq<StableRecordView>,
    export_id: ExportId,
    m: int,
    client: ClientView,
    j: int,
)
    requires
        journal.migration_snapshot(session_fence, fence, generation, records, export_id) is Ok,
        0 <= m < records.len(),
        parse_record(records[m].payload, journal.limits) == Ok::<RecordView, StableJournalError>(RecordView::Client(client)),
        0 <= j < records.len(),
        match parse_record(records[j].payload, journal.limits) {
            Ok(RecordView::Open(open)) => open.object.export_id == export_id && open.client_id == client.client_id,
            Ok(RecordView::Lock(lock)) => lock.object.export_id == export_id && lock.client_id == client.client_id,
            Ok(RecordView::Replay(reply)) => about_export(reply, export_id) && reply.client_id == client.client_id,
            _ => false,
        },
    ensures
        (journal.migration_snapshot(session_fence, fence, generation, records, export_id)->Ok_0).records.contains(
            records[m],
        ),
{
    let limits = journal.limits;
    let selected = (journal.migration_snapshot(session_fence, fence, generation, records, export_id)->Ok_0).records;
    let kept = decode_image(records, limits)->Ok_0.records;
    let again = retained(kept, kept.len());
    let at = lemma_listed(records, limits, m);
    let of = lemma_listed(records, limits, j);
    assert(state_of_export(again[of].1, export_id) || reply_of_export(again, again[of].1, export_id));
    assert(client_of_export(again, client.client_id, export_id));
    lemma_parties_selected(again, export_id, again.len(), at);
    let states = export_states(again, export_id, again.len());
    let replies = export_replies(again, export_id, again.len());
    let clients = export_clients(again, export_id, again.len());
    let k = clients.index_of(again[at]);
    assert(export_selection(again, export_id)[states.len() + replies.len() + k] == again[at]);
    lemma_selected_exported(records, limits, export_id, selected, m);
}

/// The typed forms of records that may be transferred, one by one.
proof fn lemma_transferred_each(records: Seq<StableRecordView>, results: Seq<Transfer>, n: nat)
    requires
        n <= records.len(),
        records.len() == results.len(),
        transfer_typed(records, results, n) is Ok,
    ensures
        transfer_typed(records, results, n)->Ok_0.len() == n,
        forall|k: int|
            0 <= k < n ==> #[trigger] results[k] == Ok::<TypedView, StableJournalError>(
                transfer_typed(records, results, n)->Ok_0[k],
            ),
    decreases n,
{
    if n > 0 {
        lemma_transferred_each(records, results, (n - 1) as nat);
    }
}

/// The opens and locks that are read from a snapshot are those of the export at the source.
proof fn lemma_read_from_snapshot(
    records: Seq<StableRecordView>,
    limits: StableJournalLimits,
    export_id: ExportId,
    selected: Seq<StableRecordView>,
    typed: TypedView,
)
    requires
        decode_image(records, limits) is Ok,
        export_records(decode_image(records, limits)->Ok_0.records, export_id, limits) == Ok::<
            Seq<StableRecordView>,
            StableJournalError,
        >(selected),
        sanitize_transfer(selected, checked(selected, limits), limits) is Ok,
        typed.1 is Open || typed.1 is Lock,
    ensures
        (sanitize_transfer(selected, checked(selected, limits), limits)->Ok_0).1.contains(typed) <==> decode_image(
            records,
            limits,
        )->Ok_0.records.contains(typed) && lives_in(typed.1, export_id),
{
    reveal(sanitize_transfer);
    let results = checked(selected, limits);
    let moved = transfer_typed(selected, results, selected.len())->Ok_0;
    let image = retained(moved, selected.len());
    let kept = decode_image(records, limits)->Ok_0.records;
    let all = decode_prefix(records, limits, records.len())->Ok_0.records;
    lemma_transferred_each(selected, results, selected.len());
    lemma_retained_each(moved, moved.len());
    lemma_decoded_each(records, limits, records.len());
    if image.contains(typed) {
        assert(moved.contains(typed));
        let k = moved.index_of(typed);
        assert(results[k] == Ok::<TypedView, StableJournalError>(typed));
        assert(results[k] == check_transfer(selected[k], limits));
        assert(selected.contains(selected[k]));
        lemma_exported(records, limits, export_id, selected, selected[k]);
    }
    if kept.contains(typed) && lives_in(typed.1, export_id) {
        lemma_retained_each(all, all.len());
        assert(all.contains(typed));
        let m = choose|m: int|
            0 <= m < records.len() && parse_key((#[trigger] records[m]).key, limits) == Ok::<KeyView, StableJournalError>(
                typed.0,
            ) && parse_record(records[m].payload, limits) == Ok::<RecordView, StableJournalError>(typed.1);
        assert(records.contains(records[m]));
        lemma_exported(records, limits, export_id, selected, records[m]);
        let k = selected.index_of(records[m]);
        assert(selected[k] == records[m]);
        assert(results[k] == check_transfer(selected[k], limits));
        assert(results[k] == Ok::<TypedView, StableJournalError>(moved[k]));
        assert(moved[k] == typed);
        assert(!suppressed(moved[k].1, moved));
    }
}

/// A lock of a store that can be read hangs on an open of the same client and object.
proof fn lemma_ancestor(records: Seq<TypedView>, n: nat, i: int)
    requires
        ancestry_checked(records, n) is Ok,
        0 <= i < n <= records.len(),
    ensures
        records[i].1 matches RecordView::Lock(lock) ==> exists|j: int| is_ancestor(records, j, lock),
    decreases n,
{
    if i < n - 1 {
        lemma_ancestor(records, (n - 1) as nat, i);
    }
}

/// What the destination of a migration finds of opens and locks is what the source has of that export: the same opens and
/// the same locks under the same state ids, and no others. A capsule that is staged first gives the destination the same
/// records.
pub proof fn lemma_migration_carried_through(
    journal: JournalView,
    session_fence: Seq<u8>,
    fence: Seq<u8>,
    generation: u64,
    records: Seq<StableRecordView>,
    export_id: ExportId,
    capsule: CapsuleView,
    source: RecoveredStateView,
    source_replies: Seq<Option<Seq<u8>>>,
    destination: RecoveredStateView,
    destination_replies: Seq<Option<Seq<u8>>>,
    limits: Nfs4Limits,
)
    requires
        journal.migration_snapshot(session_fence, fence, generation, records, export_id) is Ok,
        capsule.records == (journal.migration_snapshot(
            session_fence,
            fence,
            generation,
            records,
            export_id,
        )->Ok_0).records,
        sanitize_transfer(capsule.records, checked(capsule.records, journal.limits), journal.limits) is Ok,
        hydrates(source, decode_image(records, journal.limits)->Ok_0.records, source_replies, limits),
        hydrates(
            destination,
            (sanitize_transfer(capsule.records, checked(capsule.records, journal.limits), journal.limits)->Ok_0).1,
            destination_replies,
            limits,
        ),
    ensures
        forall|token: Seq<u8>| #[trigger]
            destination.opens.contains_key(token) <==> source.opens.contains_key(token)
                && source.opens[token].file.export_id == export_id,
        forall|token: Seq<u8>| #[trigger]
            destination.opens.contains_key(token) ==> destination.opens[token] == source.opens[token],
        forall|token: Seq<u8>| #[trigger]
            destination.locks.contains_key(token) <==> source.locks.contains_key(token)
                && source.locks[token].file.export_id == export_id,
        forall|token: Seq<u8>| #[trigger]
            destination.locks.contains_key(token) ==> destination.locks[token] == source.locks[token],
        sanitize_capsule(capsule, journal.limits) matches Ok(staged) ==> sanitize_transfer(
            staged.records,
            checked(staged.records, journal.limits),
            journal.limits,
        ) matches Ok(parts) && parts.1 == (sanitize_transfer(
            capsule.records,
            checked(capsule.records, journal.limits),
            journal.limits,
        )->Ok_0).1,
{
    let stable = journal.limits;
    let kept = decode_image(records, stable)->Ok_0.records;
    let image = (sanitize_transfer(capsule.records, checked(capsule.records, stable), stable)->Ok_0).1;
    lemma_sanitize_repeats(capsule.records, stable);
    assert forall|token: Seq<u8>| (#[trigger] destination.opens.contains_key(token) <==> source.opens.contains_key(token)
        && source.opens[token].file.export_id == export_id) && (destination.opens.contains_key(token)
        ==> destination.opens[token] == source.opens[token]) by {
        if destination.opens.contains_key(token) {
            let i = choose|i: int| 0 <= i < image.len() && is_open_as((#[trigger] image[i]).1, token);
            assert(image.contains(image[i]));
            lemma_read_from_snapshot(records, stable, export_id, capsule.records, image[i]);
            let at = kept.index_of(image[i]);
            assert(kept[at] == image[i]);
            assert(file_of(image[i].1->Open_0.object).export_id == export_id);
        }
        if source.opens.contains_key(token) && source.opens[token].file.export_id == export_id {
            let i = choose|i: int| 0 <= i < kept.len() && is_open_as((#[trigger] kept[i]).1, token);
            assert(kept.contains(kept[i]));
            assert(source.opens[token] == hydrated_open(kept[i].1->Open_0, limits));
            lemma_read_from_snapshot(records, stable, export_id, capsule.records, kept[i]);
            let at = image.index_of(kept[i]);
            assert(image[at] == kept[i]);
        }
    }
    assert forall|token: Seq<u8>| (#[trigger] destination.locks.contains_key(token) <==> source.locks.contains_key(token)
        && source.locks[token].file.export_id == export_id) && (destination.locks.contains_key(token)
        ==> destination.locks[token] == source.locks[token]) by {
        if destination.locks.contains_key(token) {
            let i = choose|i: int| 0 <= i < image.len() && is_lock_as((#[trigger] image[i]).1, token);
            assert(image.contains(image[i]));
            lemma_read_from_snapshot(records, stable, export_id, capsule.records, image[i]);
            let at = kept.index_of(image[i]);
            assert(kept[at] == image[i]);
            lemma_lock_alike(records, stable, export_id, capsule.records, at, image, source, destination);
        }
        if source.locks.contains_key(token) && source.locks[token].file.export_id == export_id {
            let i = choose|i: int| 0 <= i < kept.len() && is_lock_as((#[trigger] kept[i]).1, token);
            lemma_lock_alike(records, stable, export_id, capsule.records, i, image, source, destination);
        }
    }
}

/// A lock of the export is found alike at the source and at the destination.
proof fn lemma_lock_alike(
    records: Seq<StableRecordView>,
    limits: StableJournalLimits,
    export_id: ExportId,
    selected: Seq<StableRecordView>,
    i: int,
    image: Seq<TypedView>,
    source: RecoveredStateView,
    destination: RecoveredStateView,
)
    requires
        decode_image(records, limits) is Ok,
        export_records(decode_image(records, limits)->Ok_0.records, export_id, limits) == Ok::<
            Seq<StableRecordView>,
            StableJournalError,
        >(selected),
        sanitize_transfer(selected, checked(selected, limits), limits) is Ok,
        image == (sanitize_transfer(selected, checked(selected, limits), limits)->Ok_0).1,
        0 <= i < decode_image(records, limits)->Ok_0.records.len(),
        decode_image(records, limits)->Ok_0.records[i].1 is Lock,
        locks_hydrated(
            source.locks,
            decode_image(records, limits)->Ok_0.records,
            decode_image(records, limits)->Ok_0.records.len(),
        ),
        locks_hydrated(destination.locks, image, image.len()),
    ensures
        ({
            let lock = decode_image(records, limits)->Ok_0.records[i].1->Lock_0;
            &&& source.locks.contains_key(lock.state_token)
            &&& source.locks[lock.state_token].file == file_of(lock.object)
            &&& lock.object.export_id == export_id ==> destination.locks.contains_key(lock.state_token)
                && destination.locks[lock.state_token] == source.locks[lock.state_token]
        }),
{
    let kept = decode_image(records, limits)->Ok_0.records;
    let lock = kept[i].1->Lock_0;
    lemma_ancestor(kept, kept.len(), i);
    let j = choose|j: int| is_ancestor(kept, j, lock);
    let open = kept[j].1->Open_0;
    assert(other_of(open.state_token) == other_of(lock.open_state_token));
    assert(source.locks[lock.state_token] == hydrated_lock(lock, open.state_token));
    if lock.object.export_id == export_id {
        assert(kept.contains(kept[i]));
        assert(kept.contains(kept[j]));
        lemma_read_from_snapshot(records, limits, export_id, selected, kept[i]);
        lemma_read_from_snapshot(records, limits, export_id, selected, kept[j]);
        let a = image.index_of(kept[i]);
        let b = image.index_of(kept[j]);
        assert(image[a] == kept[i]);
        assert(image[b] == kept[j]);
        assert(destination.locks[lock.state_token] == hydrated_lock(lock, open.state_token));
    }
}

} // verus!
