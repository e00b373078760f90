//! Whole images of the store: what a recovered snapshot decodes to, and what of it belongs to one export.

use vstd::prelude::*;

use crate::bytemap::ByteMap;
use crate::bytes::{byte_order, bytes_equal, copy_bytes, lex_lt, ByteOrder};
use crate::check::{pair_checked, validate_key_record};
use crate::codec::{be64, BinaryEncoder, ExportId};
use crate::error::StableJournalError;
use crate::layout::{checked, encode_key, encode_record, parse_key, parse_record};
use crate::limits::StableJournalLimits;
use crate::record::{
    lemma_flat_injective, owner_kind_code, record_views, BootRecord, BootView, CapsuleView, HandleKeyRecord,
    HandleKeyView, JournalKey, JournalRecord, KeyView, MigrationCapsuleRecord, RecordView, ReplayOwnerKind, SchemaRecord,
    ServerIdentityRecord, StableKeyView, StableRecord, StableRecordView,
};
use crate::transfer::{
    dropped_keys, lemma_number_key, number_key, ownership_checked, retained, sanitize_transfer, sanitize_typed_records,
    snapshot_checked, states_checked, typed_views, validate_active_state_identities, validate_durable_delegation_graph,
    SnapshotView, TypedView,
};
use crate::wire::{
    sanitize_capsule, sanitize_migration_capsule, sanitize_transfer_records, validate_migration_snapshot,
    MigrationStableSnapshot,
};

verus! {

/// What a store holds at one moment: its fence, its generation and its records.
#[derive(Clone, Debug, PartialEq, Eq)]
pub struct StableSnapshot {
    pub fence_token: Vec<u8>,
    pub generation: u64,
    pub records: Vec<StableRecord>,
}

/// The storage keys of the first `n` records with their payloads; a later record replaces an earlier one.
pub open spec fn image_of(records: Seq<StableRecordView>, n: nat) -> Map<Seq<u8>, Seq<u8>>
    decreases n,
{
    if n == 0 {
        Map::empty()
    } else {
        image_of(records, (n - 1) as nat).insert(records[n - 1].key.flat(), records[n - 1].payload)
    }
}

/// No two records have the same storage key.
pub open spec fn keys_distinct(records: Seq<StableRecordView>) -> bool {
    forall|i: int, j: int| 0 <= i < j < records.len() ==> (#[trigger] records[i]).key != (#[trigger] records[j]).key
}

/// The payloads behind a map of byte strings.
pub open spec fn payloads(map: Map<Seq<u8>, Vec<u8>>) -> Map<Seq<u8>, Seq<u8>> {
    map.map_values(|v: Vec<u8>| v@)
}

/// A key is in an image where one of its records carries it.
pub proof fn lemma_image_keys(records: Seq<StableRecordView>, n: nat, key: StableKeyView)
    requires
        n <= records.len(),
    ensures
        image_of(records, n).contains_key(key.flat()) <==> exists|i: int| 0 <= i < n && (#[trigger] records[i]).key == key,
    decreases n,
{
    if n > 0 {
        lemma_image_keys(records, (n - 1) as nat, key);
        lemma_flat_injective(records[n - 1].key, key);
        if records[n - 1].key == key {
            assert(0 <= n - 1 < n && records[n - 1].key == key);
        }
        if exists|i: int| 0 <= i < n - 1 && (#[trigger] records[i]).key == key {
            let i = choose|i: int| 0 <= i < n - 1 && (#[trigger] records[i]).key == key;
            assert(0 <= i < n && records[i].key == key);
        }
    }
}

/// The records of a snapshot by storage key; no key may occur twice.
pub fn stable_record_map(records: &Vec<StableRecord>) -> (map: Result<ByteMap<Vec<u8>>, StableJournalError>)
    ensures
        match map {
            Ok(m) => keys_distinct(record_views(records@)) && payloads(m@) == image_of(
                record_views(records@),
                records@.len(),
            ),
            Err(e) => !keys_distinct(record_views(records@)) && e == StableJournalError::Corrupt(
                "duplicate stable storage key",
            ),
        },
{
    let ghost views = record_views(records@);
    let mut map: ByteMap<Vec<u8>> = ByteMap::new();
    assert(payloads(map@) =~= image_of(views, 0));
    let mut i: usize = 0;
    while i < records.len()
        invariant
            i <= records.len(),
            views == record_views(records@),
            payloads(map@) == image_of(views, i as nat),
            forall|a: int, b: int| 0 <= a < b < i ==> (#[trigger] views[a]).key != (#[trigger] views[b]).key,
        decreases records.len() - i,
    {
        let record = &records[i];
        let ghost before = map@;
        assert(views[i as int] == record@);
        proof {
            lemma_image_keys(views, i as nat, record.key@);
            assert(payloads(before).contains_key(record.key@.flat()) == before.contains_key(record.key@.flat()));
        }
        let payload = copy_bytes(record.payload.as_slice());
        let ghost stored = payload;
        if let Some(_) = map.insert(record.key.flat(), payload) {
            proof {
                let j = choose|j: int| 0 <= j < i && (#[trigger] views[j]).key == record.key@;
                assert(views[j].key == views[i as int].key);
            }
            return Err(StableJournalError::Corrupt("duplicate stable storage key"));
        }
        proof {
            assert(payloads(map@) =~= payloads(before).insert(record.key@.flat(), stored@));
            assert forall|a: int, b: int| 0 <= a < b < i + 1 implies (#[trigger] views[a]).key != (#[trigger] views[b]).key by {
                if b == i && views[a].key == views[b].key {
                    assert(0 <= a < i && views[a].key == record.key@);
                }
            }
        }
        i += 1;
    }
    Ok(map)
}

/// What an image decodes to, before the records that it no longer carries are taken out.
#[verifier::ext_equal]
pub struct DecodedView {
    pub schema: Option<SchemaRecord>,
    pub server_identity: Option<Seq<u8>>,
    pub boot: Option<BootView>,
    pub handle_key: Option<HandleKeyView>,
    pub records: Seq<TypedView>,
    pub migrations: Map<Seq<u8>, CapsuleView>,
}

/// Nothing decoded yet.
pub open spec fn nothing_decoded() -> DecodedView {
    DecodedView {
        schema: None,
        server_identity: None,
        boot: None,
        handle_key: None,
        records: seq![],
        migrations: Map::empty(),
    }
}

/// One typed record joins what was decoded before it. Records of which there is one may come once.
pub open spec fn join_decoded(done: DecodedView, key: KeyView, record: RecordView, limits: StableJournalLimits) -> Result<
    DecodedView,
    StableJournalError,
> {
    match record {
        RecordView::Schema(r) => if done.schema is Some {
            Err(StableJournalError::Corrupt("duplicate schema record"))
        } else {
            Ok(DecodedView { schema: Some(r), ..done })
        },
        RecordView::ServerIdentity(r) => if done.server_identity is Some {
            Err(StableJournalError::Corrupt("duplicate server-identity record"))
        } else {
            Ok(DecodedView { server_identity: Some(r), ..done })
        },
        RecordView::Boot(r) => if done.boot is Some {
            Err(StableJournalError::Corrupt("duplicate boot record"))
        } else {
            Ok(DecodedView { boot: Some(r), ..done })
        },
        RecordView::HandleKey(r) => if done.handle_key is Some {
            Err(StableJournalError::Corrupt("duplicate handle-key record"))
        } else {
            Ok(DecodedView { handle_key: Some(r), ..done })
        },
        RecordView::Migration(r) => match sanitize_capsule(r, limits) {
            Err(e) => Err(e),
            Ok(capsule) => if done.migrations.contains_key(capsule.transfer_id) {
                Err(StableJournalError::Corrupt("duplicate migration transfer id"))
            } else {
                Ok(DecodedView { migrations: done.migrations.insert(capsule.transfer_id, capsule), ..done })
            },
        },
        _ => Ok(DecodedView { records: done.records.push((key, record)), ..done }),
    }
}

/// One stored record joins what was decoded before it.
pub open spec fn decode_next(done: DecodedView, record: StableRecordView, seen: bool, limits: StableJournalLimits) -> Result<
    DecodedView,
    StableJournalError,
> {
    if seen {
        Err(StableJournalError::Corrupt("duplicate stable storage key"))
    } else {
        match parse_key(record.key, limits) {
            Err(e) => Err(e),
            Ok(key) => match parse_record(record.payload, limits) {
                Err(e) => Err(e),
                Ok(typed) => match pair_checked(key, typed) {
                    Err(e) => Err(e),
                    Ok(_) => join_decoded(done, key, typed, limits),
                },
            },
        }
    }
}

/// What the first `n` records decode to.
pub open spec fn decode_prefix(records: Seq<StableRecordView>, limits: StableJournalLimits, n: nat) -> Result<
    DecodedView,
    StableJournalError,
>
    decreases n,
{
    if n == 0 {
        Ok(nothing_decoded())
    } else {
        match decode_prefix(records, limits, (n - 1) as nat) {
            Err(e) => Err(e),
            Ok(done) => decode_next(
                done,
                records[n - 1],
                exists|j: int| 0 <= j < n - 1 && (#[trigger] records[j]).key == records[n - 1].key,
                limits,
            ),
        }
    }
}

/// What an image decodes to, without the records that it no longer carries; the rest must be a valid state.
pub open spec fn decode_image(records: Seq<StableRecordView>, limits: StableJournalLimits) -> Result<
    DecodedView,
    StableJournalError,
> {
    match decode_prefix(records, limits, records.len()) {
        Err(e) => Err(e),
        Ok(all) => {
            let kept = retained(all.records, all.records.len());
            if states_checked(kept) is Err {
                Err(states_checked(kept)->Err_0)
            } else if ownership_checked(kept, kept.len()) is Err {
                Err(ownership_checked(kept, kept.len())->Err_0)
            } else {
                Ok(DecodedView { records: kept, ..all })
            }
        },
    }
}

/// The keys of the records that an image no longer carries.
pub open spec fn cleanup_keys(records: Seq<StableRecordView>, limits: StableJournalLimits) -> Seq<KeyView> {
    let all = decode_prefix(records, limits, records.len())->Ok_0.records;
    dropped_keys(all, all.len())
}

/// What an image decodes to.
pub struct DecodedSnapshot {
    pub schema: Option<SchemaRecord>,
    pub server_identity: Option<ServerIdentityRecord>,
    pub boot: Option<BootRecord>,
    pub handle_key: Option<HandleKeyRecord>,
    pub records: Vec<(JournalKey, JournalRecord)>,
    pub migrations: ByteMap<MigrationCapsuleRecord>,
    pub legacy_cleanup_keys: Vec<JournalKey>,
}

/// The capsules behind a map.
pub open spec fn capsules(map: Map<Seq<u8>, MigrationCapsuleRecord>) -> Map<Seq<u8>, CapsuleView> {
    map.map_values(|c: MigrationCapsuleRecord| c@)
}

/// The value behind an optional record.
pub open spec fn option_view<T: View>(value: Option<T>) -> Option<T::V> {
    match value {
        Some(v) => Some(v@),
        None => None,
    }
}

impl View for DecodedSnapshot {
    type V = DecodedView;

    open spec fn view(&self) -> DecodedView {
        DecodedView {
            schema: self.schema,
            server_identity: option_view(self.server_identity),
            boot: option_view(self.boot),
            handle_key: option_view(self.handle_key),
            records: typed_views(self.records@),
            migrations: capsules(self.migrations@),
        }
    }
}

/// Puts a value into an empty slot.
pub fn set_once<T>(slot: &mut Option<T>, value: T, message: &'static str) -> (done: Result<(), StableJournalError>)
    ensures
        match done {
            Ok(_) => *old(slot) is None && *final(slot) == Some(value),
            Err(e) => *old(slot) is Some && *final(slot) == *old(slot) && e == StableJournalError::Corrupt(message),
        },
{
    if slot.is_some() {
        return Err(StableJournalError::Corrupt(message));
    }
    *slot = Some(value);
    Ok(())
}

/// Adds one typed record to what was decoded before it.
fn join_record(decoded: DecodedSnapshot, key: JournalKey, record: JournalRecord, limits: StableJournalLimits) -> (next:
    Result<DecodedSnapshot, StableJournalError>)
    ensures
        match next {
            Ok(d) => join_decoded(decoded@, key@, record@, limits) == Ok::<DecodedView, StableJournalError>(d@)
                && d.legacy_cleanup_keys == decoded.legacy_cleanup_keys,
            Err(e) => join_decoded(decoded@, key@, record@, limits) == Err::<DecodedView, StableJournalError>(e),
        },
{
    let ghost before = decoded@;
    let mut decoded = decoded;
    match record {
        JournalRecord::Schema(r) => {
            set_once(&mut decoded.schema, r, "duplicate schema record")?;
        },
        JournalRecord::ServerIdentity(r) => {
            set_once(&mut decoded.server_identity, r, "duplicate server-identity record")?;
        },
        JournalRecord::Boot(r) => {
            set_once(&mut decoded.boot, r, "duplicate boot record")?;
        },
        JournalRecord::HandleKey(r) => {
            set_once(&mut decoded.handle_key, r, "duplicate handle-key record")?;
        },
        JournalRecord::Migration(r) => {
            let capsule = sanitize_migration_capsule(r, limits)?;
            let id = copy_bytes(capsule.transfer_id.as_slice());
            let ghost stored = capsule@;
            let ghost map_before = decoded.migrations@;
            if let Some(_) = decoded.migrations.insert(id, capsule) {
                assert(before.migrations.contains_key(stored.transfer_id));
                return Err(StableJournalError::Corrupt("duplicate migration transfer id"));
            }
            assert(capsules(decoded.migrations@) =~= capsules(map_before).insert(stored.transfer_id, stored));
        },
        record => {
            let ghost list = decoded.records@;
            decoded.records.push((key, record));
            assert(typed_views(decoded.records@) =~= typed_views(list).push((key@, record@)));
        },
    }
    Ok(decoded)
}

/// A fault among the first records is a fault of them all.
proof fn lemma_decode_fault(records: Seq<StableRecordView>, limits: StableJournalLimits, n: nat, m: nat)
    requires
        n <= m,
        decode_prefix(records, limits, n) is Err,
    ensures
        decode_prefix(records, limits, m) == decode_prefix(records, limits, n),
    decreases m - n,
{
    if n < m {
        lemma_decode_fault(records, limits, n, (m - 1) as nat);
    }
}

/// Decodes the records of a snapshot one after the other.
fn decode_records(records: &Vec<StableRecord>, limits: StableJournalLimits) -> (decoded: Result<
    DecodedSnapshot,
    StableJournalError,
>)
    ensures
        match decoded {
            Ok(d) => decode_prefix(record_views(records@), limits, records@.len()) == Ok::<DecodedView, StableJournalError>(
                d@,
            ),
            Err(e) => decode_prefix(record_views(records@), limits, records@.len()) == Err::<
                DecodedView,
                StableJournalError,
            >(e),
        },
{
    let ghost views = record_views(records@);
    let mut decoded = DecodedSnapshot {
        schema: None,
        server_identity: None,
        boot: None,
        handle_key: None,
        records: Vec::new(),
        migrations: ByteMap::new(),
        legacy_cleanup_keys: Vec::new(),
    };
    assert(decoded@ =~= nothing_decoded()) by {
        assert(decoded@.records =~= Seq::<TypedView>::empty());
        assert(decoded@.migrations =~= Map::<Seq<u8>, CapsuleView>::empty());
    }
    let mut seen: ByteMap<()> = ByteMap::new();
    let mut i: usize = 0;
    while i < records.len()
        invariant
            i <= records.len(),
            views == record_views(records@),
            decode_prefix(views, limits, i as nat) == Ok::<DecodedView, StableJournalError>(decoded@),
            forall|k: StableKeyView| #[trigger]
                seen@.contains_key(k.flat()) <==> exists|j: int| 0 <= j < i && (#[trigger] views[j]).key == k,
        decreases records.len() - i,
    {
        let record = &records[i];
        let ghost key_view = record.key@;
        let ghost before = seen@;
        assert(views[i as int] == record@);
        assert(before.contains_key(key_view.flat()) <==> exists|j: int|
            0 <= j < i && (#[trigger] views[j]).key == key_view);
        let ghost step = decode_next(decoded@, views[i as int], before.contains_key(key_view.flat()), limits);
        assert(decode_prefix(views, limits, (i + 1) as nat) == step);
        proof {
            if step is Err {
                lemma_decode_fault(views, limits, (i + 1) as nat, views.len());
            }
        }
        if let Some(_) = seen.insert(record.key.flat(), ()) {
            return Err(StableJournalError::Corrupt("duplicate stable storage key"));
        }
        let key = JournalKey::decode(&record.key, limits)?;
        let typed = JournalRecord::decode(record.payload.as_slice(), limits)?;
        validate_key_record(&key, &typed)?;
        decoded = join_record(decoded, key, typed, limits)?;
        proof {
            assert forall|k: StableKeyView| #[trigger] seen@.contains_key(k.flat()) <==> exists|j: int|
                0 <= j < i + 1 && (#[trigger] views[j]).key == k by {
                lemma_flat_injective(k, key_view);
                if k == key_view {
                    assert(views[i as int].key == k);
                }
                if before.contains_key(k.flat()) {
                    let j = choose|j: int| 0 <= j < i && (#[trigger] views[j]).key == k;
                    assert(0 <= j < i + 1 && views[j].key == k);
                }
            }
        }
        i += 1;
    }
    Ok(decoded)
}

/// Decodes a snapshot and checks the state that it holds.
pub fn decode_snapshot(records: &Vec<StableRecord>, limits: StableJournalLimits) -> (decoded: Result<
    DecodedSnapshot,
    StableJournalError,
>)
    ensures
        match decoded {
            Ok(d) => {
                &&& decode_image(record_views(records@), limits) == Ok::<DecodedView, StableJournalError>(d@)
                &&& d.legacy_cleanup_keys@.len() == cleanup_keys(record_views(records@), limits).len()
                &&& forall|i: int|
                    0 <= i < d.legacy_cleanup_keys@.len() ==> (#[trigger] d.legacy_cleanup_keys@[i])@ == cleanup_keys(
                        record_views(records@),
                        limits,
                    )[i]
            },
            Err(e) => decode_image(record_views(records@), limits) == Err::<DecodedView, StableJournalError>(e),
        },
{
    let mut decoded = decode_records(records, limits)?;
    let ghost all = decoded@;
    let mut list: Vec<(JournalKey, JournalRecord)> = Vec::new();
    std::mem::swap(&mut list, &mut decoded.records);
    let (kept, removed) = sanitize_typed_records(list);
    decoded.records = kept;
    decoded.legacy_cleanup_keys = removed;
    validate_active_state_identities(&decoded.records)?;
    validate_durable_delegation_graph(&decoded.records)?;
    assert(decoded@ =~= DecodedView { records: retained(all.records, all.records.len()), ..all });
    Ok(decoded)
}

/// A state of that export.
pub open spec fn state_of_export(record: RecordView, export_id: ExportId) -> bool {
    match record {
        RecordView::Open(r) => r.object.export_id == export_id,
        RecordView::Lock(r) => r.object.export_id == export_id,
        RecordView::Delegation(r) => r.object.export_id == export_id,
        _ => false,
    }
}

/// An open or lock state of that export under that owner.
pub open spec fn owner_of_export(
    record: RecordView,
    export_id: ExportId,
    client_id: u64,
    kind: ReplayOwnerKind,
    owner: Seq<u8>,
) -> bool {
    match record {
        RecordView::Open(r) => r.object.export_id == export_id && kind == ReplayOwnerKind::Open && r.client_id
            == client_id && r.owner == owner,
        RecordView::Lock(r) => r.object.export_id == export_id && kind == ReplayOwnerKind::Lock && r.client_id
            == client_id && r.owner == owner,
        _ => false,
    }
}

/// A cached reply that goes with that export: its owner has state there, or it is about an object there.
pub open spec fn reply_of_export(records: Seq<TypedView>, record: RecordView, export_id: ExportId) -> bool {
    match record {
        RecordView::Replay(r) => {
            ||| exists|i: int|
                0 <= i < records.len() && owner_of_export(
                    (#[trigger] records[i]).1,
                    export_id,
                    r.client_id,
                    r.owner_kind,
                    r.owner,
                )
            ||| r.current_object is Some && r.current_object->0.export_id == export_id
        },
        _ => false,
    }
}

/// A client that goes with that export: one of its states or replies does.
pub open spec fn client_of_export(records: Seq<TypedView>, client_id: u64, export_id: ExportId) -> bool {
    exists|i: int|
        0 <= i < records.len() && (state_of_export((#[trigger] records[i]).1, export_id) || reply_of_export(
            records,
            records[i].1,
            export_id,
        )) && crate::transfer::state_client(records[i].1) == Some(client_id)
}

/// The states of an export among the first `n` records.
pub open spec fn export_states(records: Seq<TypedView>, export_id: ExportId, n: nat) -> Seq<TypedView>
    decreases n,
{
    if n == 0 {
        seq![]
    } else if state_of_export(records[n - 1].1, export_id) {
        export_states(records, export_id, (n - 1) as nat).push(records[n - 1])
    } else {
        export_states(records, export_id, (n - 1) as nat)
    }
}

/// The cached replies of an export among the first `n` records.
pub open spec fn export_replies(records: Seq<TypedView>, export_id: ExportId, n: nat) -> Seq<TypedView>
    decreases n,
{
    if n == 0 {
        seq![]
    } else if reply_of_export(records, records[n - 1].1, export_id) {
        export_replies(records, export_id, (n - 1) as nat).push(records[n - 1])
    } else {
        export_replies(records, export_id, (n - 1) as nat)
    }
}

/// The clients of an export among the first `n` records.
pub open spec fn export_clients(records: Seq<TypedView>, export_id: ExportId, n: nat) -> Seq<TypedView>
    decreases n,
{
    if n == 0 {
        seq![]
    } else if records[n - 1].1 matches RecordView::Client(client) && client_of_export(
        records,
        client.client_id,
        export_id,
    ) {
        export_clients(records, export_id, (n - 1) as nat).push(records[n - 1])
    } else {
        export_clients(records, export_id, (n - 1) as nat)
    }
}

/// The records of an export: its states, their replies, and the clients of both.
pub open spec fn export_selection(records: Seq<TypedView>, export_id: ExportId) -> Seq<TypedView> {
    export_states(records, export_id, records.len()) + export_replies(records, export_id, records.len())
        + export_clients(records, export_id, records.len())
}

/// The stored form of a typed record, or why it has none.
pub open spec fn encode_pair(key: KeyView, record: RecordView, limits: StableJournalLimits) -> Result<
    StableRecordView,
    StableJournalError,
> {
    match pair_checked(key, record) {
        Err(e) => Err(e),
        Ok(_) => match encode_key(key, limits) {
            Err(e) => Err(e),
            Ok(stored) => match encode_record(record, limits) {
                Err(e) => Err(e),
                Ok(payload) => Ok(StableRecordView { key: stored, payload }),
            },
        },
    }
}

/// The stored forms of the first `n` typed records.
pub open spec fn encode_pairs(records: Seq<TypedView>, limits: StableJournalLimits, n: nat) -> Result<
    Seq<StableRecordView>,
    StableJournalError,
>
    decreases n,
{
    if n == 0 {
        Ok(seq![])
    } else {
        match encode_pairs(records, limits, (n - 1) as nat) {
            Err(e) => Err(e),
            Ok(done) => match encode_pair(records[n - 1].0, records[n - 1].1, limits) {
                Err(e) => Err(e),
                Ok(one) => Ok(done.push(one)),
            },
        }
    }
}

/// Position behind the last of the first `n` records whose key is not after `key`.
pub open spec fn upper_place(records: Seq<StableRecordView>, key: Seq<u8>, n: nat) -> nat
    decreases n,
{
    if n == 0 || !lex_lt(key, records[n - 1].key.flat()) {
        n
    } else {
        upper_place(records, key, (n - 1) as nat)
    }
}

/// The first `n` records in key order; records with equal keys keep their order.
pub open spec fn sorted_records(records: Seq<StableRecordView>, n: nat) -> Seq<StableRecordView>
    decreases n,
{
    if n == 0 {
        seq![]
    } else {
        let rest = sorted_records(records, (n - 1) as nat);
        rest.insert(upper_place(rest, records[n - 1].key.flat(), rest.len()) as int, records[n - 1])
    }
}

/// The stored records of an export in key order, or why they cannot be handed over.
pub open spec fn export_records(records: Seq<TypedView>, export_id: ExportId, limits: StableJournalLimits) -> Result<
    Seq<StableRecordView>,
    StableJournalError,
> {
    let kept = retained(records, records.len());
    let selection = export_selection(kept, export_id);
    match encode_pairs(selection, limits, selection.len()) {
        Err(e) => Err(e),
        Ok(encoded) => {
            let sorted = sorted_records(encoded, encoded.len());
            match snapshot_checked(probe_snapshot(sorted), checked(sorted, limits), export_id, limits) {
                Err(e) => Err(e),
                Ok(_) => Ok(sorted),
            }
        },
    }
}

/// A snapshot of those records under a placeholder identity, to check the records alone.
pub open spec fn probe_snapshot(records: Seq<StableRecordView>) -> SnapshotView {
    SnapshotView {
        source_generation: 1,
        server_identity: Seq::new(16, |i: int| 1u8),
        boot: BootView {
            verifier: Seq::new(8, |i: int| 1u8),
            boot_tag: 1,
            started_at_unix_seconds: 0,
            clean_shutdown: false,
        },
        handle_key: HandleKeyView { instance_id: Seq::new(8, |i: int| 1u8), secret: Seq::new(32, |i: int| 1u8) },
        records,
    }
}

/// The map key of an owner: its client, its kind and its name.
pub open spec fn owner_key(client_id: u64, kind: ReplayOwnerKind, owner: Seq<u8>) -> Seq<u8> {
    be64(client_id) + (seq![owner_kind_code(kind)] + owner)
}

/// Distinct owners have distinct keys.
pub proof fn lemma_owner_key(c: u64, k: ReplayOwnerKind, o: Seq<u8>, d: u64, l: ReplayOwnerKind, p: Seq<u8>)
    ensures
        owner_key(c, k, o) == owner_key(d, l, p) <==> c == d && k == l && o == p,
{
    crate::codec::lemma_be64(c, seq![]);
    crate::codec::lemma_be64(d, seq![]);
    let a = owner_key(c, k, o);
    let b = owner_key(d, l, p);
    if a == b {
        assert(a.take(8) =~= be64(c));
        assert(b.take(8) =~= be64(d));
        assert(a[8] == owner_kind_code(k) && b[8] == owner_kind_code(l));
        assert(a.skip(9) =~= o);
        assert(b.skip(9) =~= p);
    }
}

/// The map key of an owner.
pub fn owner_map_key(client_id: u64, kind: ReplayOwnerKind, owner: &[u8]) -> (key: Vec<u8>)
    ensures
        key@ == owner_key(client_id, kind, owner@),
{
    let mut encoder = BinaryEncoder::new();
    encoder.u64(client_id);
    encoder.u8(kind.code());
    encoder.fixed(owner);
    let key = encoder.finish();
    assert(key@ =~= owner_key(client_id, kind, owner@));
    key
}

/// The stored form of a typed record.
pub fn stable_record_from_typed(key: &JournalKey, record: &JournalRecord, limits: StableJournalLimits) -> (stored: Result<
    StableRecord,
    StableJournalError,
>)
    ensures
        match stored {
            Ok(r) => encode_pair(key@, record@, limits) == Ok::<StableRecordView, StableJournalError>(r@),
            Err(e) => encode_pair(key@, record@, limits) == Err::<StableRecordView, StableJournalError>(e),
        },
{
    validate_key_record(key, record)?;
    let stored = key.encode(limits)?;
    let payload = record.encode(limits)?;
    Ok(StableRecord { key: stored, payload })
}

/// A fault among the first records is a fault of them all.
proof fn lemma_encode_fault(records: Seq<TypedView>, limits: StableJournalLimits, n: nat, m: nat)
    requires
        n <= m,
        encode_pairs(records, limits, n) is Err,
    ensures
        encode_pairs(records, limits, m) == encode_pairs(records, limits, n),
    decreases m - n,
{
    if n < m {
        lemma_encode_fault(records, limits, n, (m - 1) as nat);
    }
}

/// Puts a record into its place.
fn insert_sorted(records: &mut Vec<StableRecord>, record: StableRecord)
    ensures
        record_views(final(records)@) == record_views(old(records)@).insert(
            upper_place(record_views(old(records)@), record@.key.flat(), old(records)@.len()) as int,
            record@,
        ),
{
    let ghost views = record_views(records@);
    let key = record.key.flat();
    let ghost target = upper_place(views, key@, views.len());
    let mut at: usize = records.len();
    let mut placed = false;
    while at > 0 && !placed
        invariant
            at <= records.len(),
            views == record_views(records@),
            key@ == record@.key.flat(),
            target == upper_place(views, key@, views.len()),
            target == upper_place(views, key@, at as nat),
            placed ==> target == at,
            records@ == old(records)@,
        decreases at + (if placed { 0int } else { 1int }),
    {
        let other = records[at - 1].key.flat();
        assert(other@ == views[at - 1].key.flat());
        match byte_order(key.as_slice(), other.as_slice()) {
            ByteOrder::Before => {
                at -= 1;
            },
            ByteOrder::Same => {
                proof {
                    crate::bytes::lemma_lex_irreflexive(key@);
                }
                placed = true;
            },
            ByteOrder::After => {
                proof {
                    crate::bytes::lemma_lex_asymmetric(other@, key@);
                }
                placed = true;
            },
        }
    }
    let ghost view = record@;
    records.insert(at, record);
    assert(record_views(records@) =~= views.insert(at as int, view));
}

/// Encodes typed records and puts them in key order.
fn encode_sorted(selected: &Vec<(JournalKey, JournalRecord)>, limits: StableJournalLimits) -> (encoded: Result<
    Vec<StableRecord>,
    StableJournalError,
>)
    ensures
        match encode_pairs(typed_views(selected@), limits, selected@.len()) {
            Ok(all) => encoded is Ok && record_views(encoded->Ok_0@) == sorted_records(all, all.len()),
            Err(e) => encoded == Err::<Vec<StableRecord>, StableJournalError>(e),
        },
{
    let ghost views = typed_views(selected@);
    let mut encoded: Vec<StableRecord> = Vec::new();
    let mut i: usize = 0;
    let ghost mut done: Seq<StableRecordView> = seq![];
    assert(record_views(encoded@) =~= sorted_records(done, 0));
    while i < selected.len()
        invariant
            i <= selected.len(),
            views == typed_views(selected@),
            encode_pairs(views, limits, i as nat) == Ok::<Seq<StableRecordView>, StableJournalError>(done),
            done.len() == i,
            record_views(encoded@) == sorted_records(done, done.len()),
        decreases selected.len() - i,
    {
        let (key, record) = &selected[i];
        assert(views[i as int] == (key@, record@));
        match stable_record_from_typed(key, record, limits) {
            Ok(one) => {
                let ghost view = one@;
                insert_sorted(&mut encoded, one);
                proof {
                    let next = done.push(view);
                    lemma_sorted_prefix(done, next, done.len());
                    done = next;
                }
            },
            Err(e) => {
                proof {
                    lemma_encode_fault(views, limits, (i + 1) as nat, views.len());
                }
                return Err(e);
            },
        }
        i += 1;
    }
    Ok(encoded)
}

/// Sorting looks at the first records only.
proof fn lemma_sorted_prefix(a: Seq<StableRecordView>, b: Seq<StableRecordView>, n: nat)
    requires
        n <= a.len(),
        n <= b.len(),
        forall|i: int| 0 <= i < n ==> a[i] == b[i],
    ensures
        sorted_records(a, n) == sorted_records(b, n),
        sorted_records(a, n).len() == n,
    decreases n,
{
    if n > 0 {
        lemma_sorted_prefix(a, b, (n - 1) as nat);
        lemma_upper_place(sorted_records(a, (n - 1) as nat), a[n - 1].key.flat(), (n - 1) as nat);
    }
}

/// A place is within the records.
proof fn lemma_upper_place(records: Seq<StableRecordView>, key: Seq<u8>, n: nat)
    ensures
        upper_place(records, key, n) <= n,
    decreases n,
{
    if n > 0 {
        lemma_upper_place(records, key, (n - 1) as nat);
    }
}

/// The owners and clients that go with an export.
struct ExportParties {
    owners: ByteMap<()>,
    clients: ByteMap<()>,
}

/// The owners hold exactly those of the first `n` records.
spec fn owners_of(owners: Map<Seq<u8>, ()>, records: Seq<TypedView>, export_id: ExportId, n: nat) -> bool {
    forall|c: u64, k: ReplayOwnerKind, o: Seq<u8>| #[trigger]
        owners.contains_key(owner_key(c, k, o)) <==> exists|i: int|
            0 <= i < n && owner_of_export((#[trigger] records[i]).1, export_id, c, k, o)
}

/// The owners with open or lock state of an export.
fn export_owners(records: &Vec<(JournalKey, JournalRecord)>, export_id: ExportId) -> (owners: ByteMap<()>)
    ensures
        owners_of(owners@, typed_views(records@), export_id, records@.len()),
{
    let ghost views = typed_views(records@);
    let mut owners: ByteMap<()> = ByteMap::new();
    let mut i: usize = 0;
    while i < records.len()
        invariant
            i <= records.len(),
            views == typed_views(records@),
            owners_of(owners@, views, export_id, i as nat),
        decreases records.len() - i,
    {
        let ghost before = owners@;
        let ghost record = views[i as int].1;
        match &records[i].1 {
            JournalRecord::Open(r) => {
                assert(record == RecordView::Open(r@));
                if r.object.export_id == export_id {
                    let _ = owners.insert(
                        owner_map_key(r.client_id, ReplayOwnerKind::Open, r.owner.as_slice()),
                        (),
                    );
                }
            },
            JournalRecord::Lock(r) => {
                assert(record == RecordView::Lock(r@));
                if r.object.export_id == export_id {
                    let _ = owners.insert(
                        owner_map_key(r.client_id, ReplayOwnerKind::Lock, r.owner.as_slice()),
                        (),
                    );
                }
            },
            _ => {},
        }
        proof {
            assert forall|c: u64, k: ReplayOwnerKind, o: Seq<u8>| #[trigger]
                owners@.contains_key(owner_key(c, k, o)) <==> exists|j: int|
                    0 <= j < i + 1 && owner_of_export((#[trigger] views[j]).1, export_id, c, k, o) by {
                match record {
                    RecordView::Open(r) => {
                        lemma_owner_key(c, k, o, r.client_id, ReplayOwnerKind::Open, r.owner);
                    },
                    RecordView::Lock(r) => {
                        lemma_owner_key(c, k, o, r.client_id, ReplayOwnerKind::Lock, r.owner);
                    },
                    _ => {},
                }
                if owner_of_export(record, export_id, c, k, o) {
                    assert(owner_of_export(views[i as int].1, export_id, c, k, o));
                }
                if before.contains_key(owner_key(c, k, o)) {
                    let j = choose|j: int| 0 <= j < i && owner_of_export((#[trigger] views[j]).1, export_id, c, k, o);
                    assert(0 <= j < i + 1 && owner_of_export(views[j].1, export_id, c, k, o));
                }
            }
        }
        i += 1;
    }
    owners
}

/// Whether a record is a cached reply that goes with an export.
fn is_reply_of_export(
    record: &JournalRecord,
    owners: &ByteMap<()>,
    export_id: ExportId,
    records: Ghost<Seq<TypedView>>,
) -> (selected: bool)
    requires
        owners_of(owners@, records@, export_id, records@.len()),
    ensures
        selected == reply_of_export(records@, record@, export_id),
{
    match record {
        JournalRecord::Replay(r) => {
            let owned = owners.contains(owner_map_key(r.client_id, r.owner_kind, r.owner.as_slice()).as_slice());
            let about = match r.current_object {
                Some(object) => object.export_id == export_id,
                None => false,
            };
            owned || about
        },
        _ => false,
    }
}

/// Whether a record is a state of an export.
fn is_state_of_export(record: &JournalRecord, export_id: ExportId) -> (selected: bool)
    ensures
        selected == state_of_export(record@, export_id),
{
    match record {
        JournalRecord::Open(r) => r.object.export_id == export_id,
        JournalRecord::Lock(r) => r.object.export_id == export_id,
        JournalRecord::Delegation(r) => r.object.export_id == export_id,
        _ => false,
    }
}

/// The client that a state record belongs to.
fn client_of_state(record: &JournalRecord) -> (client: Option<u64>)
    ensures
        client == crate::transfer::state_client(record@),
{
    match record {
        JournalRecord::Open(r) => Some(r.client_id),
        JournalRecord::Lock(r) => Some(r.client_id),
        JournalRecord::Delegation(r) => Some(r.client_id),
        JournalRecord::Replay(r) => Some(r.client_id),
        _ => None,
    }
}

/// The clients hold exactly those of the first `n` records that go with the export.
spec fn clients_of(clients: Map<Seq<u8>, ()>, records: Seq<TypedView>, export_id: ExportId, n: nat) -> bool {
    forall|c: u64| #[trigger]
        clients.contains_key(be64(c)) <==> exists|i: int|
            0 <= i < n && (state_of_export((#[trigger] records[i]).1, export_id) || reply_of_export(
                records,
                records[i].1,
                export_id,
            )) && crate::transfer::state_client(records[i].1) == Some(c)
}

/// The typed records of an export.
fn select_records(records: &Vec<(JournalKey, JournalRecord)>, export_id: ExportId) -> (selected: Vec<
    (JournalKey, JournalRecord),
>)
    ensures
        typed_views(selected@) == export_selection(typed_views(records@), export_id),
{
    let ghost views = typed_views(records@);
    let owners = export_owners(records, export_id);
    let mut clients: ByteMap<()> = ByteMap::new();
    let mut selected: Vec<(JournalKey, JournalRecord)> = Vec::new();
    let mut replies: Vec<(JournalKey, JournalRecord)> = Vec::new();
    assert(typed_views(selected@) =~= Seq::<TypedView>::empty());
    assert(typed_views(replies@) =~= Seq::<TypedView>::empty());
    let mut i: usize = 0;
    while i < records.len()
        invariant
            i <= records.len(),
            views == typed_views(records@),
            owners_of(owners@, views, export_id, views.len()),
            clients_of(clients@, views, export_id, i as nat),
            typed_views(selected@) == export_states(views, export_id, i as nat),
            typed_views(replies@) == export_replies(views, export_id, i as nat),
        decreases records.len() - i,
    {
        let (key, record) = &records[i];
        let ghost before = clients@;
        let ghost states_before = selected@;
        let ghost replies_before = replies@;
        assert(views[i as int] == (key@, record@));
        let state = is_state_of_export(record, export_id);
        let reply = is_reply_of_export(record, &owners, export_id, Ghost(views));
        if state {
            selected.push((key.copy(), record.copy()));
            assert(typed_views(selected@) =~= typed_views(states_before).push(views[i as int]));
        }
        if reply {
            replies.push((key.copy(), record.copy()));
            assert(typed_views(replies@) =~= typed_views(replies_before).push(views[i as int]));
        }
        let client = client_of_state(record);
        if state || reply {
            if let Some(id) = client {
                let _ = clients.insert(number_key(id), ());
            }
        }
        proof {
            assert forall|c: u64| #[trigger] clients@.contains_key(be64(c)) <==> exists|j: int|
                0 <= j < i + 1 && (state_of_export((#[trigger] views[j]).1, export_id) || reply_of_export(
                    views,
                    views[j].1,
                    export_id,
                )) && crate::transfer::state_client(views[j].1) == Some(c) by {
                if let Some(id) = client {
                    lemma_number_key(c, id);
                }
                if (state || reply) && client == Some(c) {
                    assert(crate::transfer::state_client(views[i as int].1) == Some(c));
                }
                if before.contains_key(be64(c)) {
                    let j = choose|j: int|
                        0 <= j < i && (state_of_export((#[trigger] views[j]).1, export_id) || reply_of_export(
                            views,
                            views[j].1,
                            export_id,
                        )) && crate::transfer::state_client(views[j].1) == Some(c);
                    assert(0 <= j < i + 1 && crate::transfer::state_client(views[j].1) == Some(c));
                }
            }
        }
        i += 1;
    }
    let mut registered: Vec<(JournalKey, JournalRecord)> = Vec::new();
    assert(typed_views(registered@) =~= Seq::<TypedView>::empty());
    let mut n: usize = 0;
    while n < records.len()
        invariant
            n <= records.len(),
            views == typed_views(records@),
            clients_of(clients@, views, export_id, views.len()),
            typed_views(registered@) == export_clients(views, export_id, n as nat),
        decreases records.len() - n,
    {
        let (key, record) = &records[n];
        assert(views[n as int] == (key@, record@));
        let ghost before = registered@;
        if let JournalRecord::Client(client) = record {
            assert(clients@.contains_key(be64(client.client_id)) == client_of_export(views, client.client_id, export_id));
            if clients.contains(number_key(client.client_id).as_slice()) {
                registered.push((key.copy(), record.copy()));
                assert(typed_views(registered@) =~= typed_views(before).push(views[n as int]));
            }
        }
        n += 1;
    }
    let ghost states = selected@;
    let ghost middle = replies@;
    selected.append(&mut replies);
    let ghost last = registered@;
    selected.append(&mut registered);
    assert(selected@ =~= states + middle + last);
    assert(typed_views(selected@) =~= typed_views(states) + typed_views(middle) + typed_views(last));
    selected
}

/// The stored records of an export, ready to be handed over.
pub fn select_export_records(
    records: Vec<(JournalKey, JournalRecord)>,
    export_id: ExportId,
    limits: StableJournalLimits,
) -> (selected: Result<Vec<StableRecord>, StableJournalError>)
    ensures
        match selected {
            Ok(s) => export_records(typed_views(records@), export_id, limits) == Ok::<
                Seq<StableRecordView>,
                StableJournalError,
            >(record_views(s@)),
            Err(e) => export_records(typed_views(records@), export_id, limits) == Err::<
                Seq<StableRecordView>,
                StableJournalError,
            >(e),
        },
{
    let (records, _) = sanitize_typed_records(records);
    let selected = select_records(&records, export_id);
    let encoded = encode_sorted(&selected, limits)?;
    let snapshot = MigrationStableSnapshot {
        source_generation: 1,
        server_identity: ServerIdentityRecord { identity: [1u8; 16] },
        boot: BootRecord {
            verifier: [1u8; 8],
            boot_tag: 1,
            started_at_unix_seconds: 0,
            clean_shutdown: false,
        },
        handle_key: HandleKeyRecord { instance_id: [1u8; 8], secret: [1u8; 32] },
        records: encoded,
    };
    proof {
        let p = probe_snapshot(record_views(snapshot.records@));
        assert(snapshot@.server_identity =~= p.server_identity);
        assert(snapshot@.boot.verifier =~= p.boot.verifier);
        assert(snapshot@.handle_key.instance_id =~= p.handle_key.instance_id);
        assert(snapshot@.handle_key.secret =~= p.handle_key.secret);
        assert(snapshot@ =~= p);
    }
    validate_migration_snapshot(&snapshot, export_id, limits)?;
    Ok(snapshot.records)
}

/// What of an import is not stored yet, among the first `n` records; a stored payload must be the same.
pub open spec fn import_added(
    image: Map<Seq<u8>, Seq<u8>>,
    stable: Seq<StableRecordView>,
    typed: Seq<TypedView>,
    n: nat,
) -> Result<Seq<TypedView>, StableJournalError>
    decreases n,
{
    if n == 0 {
        Ok(seq![])
    } else {
        match import_added(image, stable, typed, (n - 1) as nat) {
            Err(e) => Err(e),
            Ok(done) => {
                let key = stable[n - 1].key.flat();
                if !image.contains_key(key) {
                    Ok(done.push(typed[n - 1]))
                } else if image[key] != stable[n - 1].payload {
                    Err(StableJournalError::MigrationConflict)
                } else {
                    Ok(done)
                }
            },
        }
    }
}

/// How many records an import adds to an image, or why the two do not go together.
pub open spec fn import_projection(
    current: Seq<StableRecordView>,
    imported: Seq<StableRecordView>,
    limits: StableJournalLimits,
) -> Result<nat, StableJournalError> {
    match decode_image(current, limits) {
        Err(e) => Err(e),
        Ok(decoded) => if !keys_distinct(current) {
            Err(StableJournalError::Corrupt("duplicate stable storage key"))
        } else {
            match sanitize_transfer(imported, checked(imported, limits), limits) {
                Err(e) => Err(e),
                Ok((stable, typed)) => match import_added(
                    image_of(current, current.len()),
                    stable,
                    typed,
                    stable.len(),
                ) {
                    Err(e) => Err(e),
                    Ok(added) => {
                        let projected = decoded.records + added;
                        if states_checked(projected) is Err || ownership_checked(projected, projected.len()) is Err {
                            Err(StableJournalError::MigrationConflict)
                        } else {
                            Ok(added.len())
                        }
                    },
                },
            }
        },
    }
}

/// A conflict among the first records is a conflict of them all.
proof fn lemma_import_fault(
    image: Map<Seq<u8>, Seq<u8>>,
    stable: Seq<StableRecordView>,
    typed: Seq<TypedView>,
    n: nat,
    m: nat,
)
    requires
        n <= m,
        import_added(image, stable, typed, n) is Err,
    ensures
        import_added(image, stable, typed, m) == import_added(image, stable, typed, n),
    decreases m - n,
{
    if n < m {
        lemma_import_fault(image, stable, typed, n, (m - 1) as nat);
    }
}

/// What stays of a transfer has as many stored as typed records.
proof fn lemma_retained_lengths(records: Seq<StableRecordView>, all: Seq<TypedView>, n: nat)
    ensures
        crate::transfer::retained_stable(records, all, n).len() == retained(all, n).len(),
    decreases n,
{
    if n > 0 {
        lemma_retained_lengths(records, all, (n - 1) as nat);
    }
}

/// Checks that an import goes together with the current image.
pub fn validate_import_projection(
    current: &Vec<StableRecord>,
    imported: &Vec<StableRecord>,
    limits: StableJournalLimits,
) -> (projection: Result<(ByteMap<Vec<u8>>, usize), StableJournalError>)
    ensures
        match projection {
            Ok(p) => import_projection(record_views(current@), record_views(imported@), limits) == Ok::<
                nat,
                StableJournalError,
            >(p.1 as nat) && payloads(p.0@) == image_of(record_views(current@), current@.len()),
            Err(e) => import_projection(record_views(current@), record_views(imported@), limits) == Err::<
                nat,
                StableJournalError,
            >(e),
        },
{
    let decoded = decode_snapshot(current, limits)?;
    let mut projected = decoded.records;
    let ghost base = typed_views(projected@);
    let map = stable_record_map(current)?;
    let ghost image = image_of(record_views(current@), current@.len());
    let sanitized = sanitize_transfer_records(imported, limits)?;
    let ghost stable = record_views(sanitized.stable@);
    let ghost typed = typed_views(sanitized.typed@);
    proof {
        reveal(sanitize_transfer);
        let views = record_views(imported@);
        let all = crate::transfer::transfer_typed(views, checked(views, limits), views.len())->Ok_0;
        lemma_retained_lengths(views, all, views.len());
        assert(stable.len() == typed.len());
    }
    let mut added: usize = 0;
    let ghost mut extra: Seq<TypedView> = seq![];
    assert(base + extra =~= base);
    let mut i: usize = 0;
    while i < sanitized.stable.len()
        invariant
            i <= sanitized.stable.len(),
            stable == record_views(sanitized.stable@),
            typed == typed_views(sanitized.typed@),
            stable.len() == typed.len(),
            payloads(map@) == image,
            added == extra.len(),
            added <= i,
            import_added(image, stable, typed, i as nat) == Ok::<Seq<TypedView>, StableJournalError>(extra),
            typed_views(projected@) == base + extra,
            import_projection(record_views(current@), record_views(imported@), limits) == match import_added(
                image,
                stable,
                typed,
                stable.len(),
            ) {
                Err(e) => Err::<nat, StableJournalError>(e),
                Ok(all) => {
                    let whole = base + all;
                    if states_checked(whole) is Err || ownership_checked(whole, whole.len()) is Err {
                        Err(StableJournalError::MigrationConflict)
                    } else {
                        Ok(all.len())
                    }
                },
            },
        decreases sanitized.stable.len() - i,
    {
        let record = &sanitized.stable[i];
        let flat = record.key.flat();
        assert(stable[i as int] == record@);
        assert(image.contains_key(flat@) == map@.contains_key(flat@));
        match map.get(flat.as_slice()) {
            Some(payload) => {
                assert(image[flat@] == payload@);
                if !bytes_equal(payload.as_slice(), record.payload.as_slice()) {
                    proof {
                        lemma_import_fault(image, stable, typed, (i + 1) as nat, stable.len());
                    }
                    return Err(StableJournalError::MigrationConflict);
                }
            },
            None => {
                let (key, one) = &sanitized.typed[i];
                let ghost before = projected@;
                projected.push((key.copy(), one.copy()));
                added += 1;
                proof {
                    assert(typed[i as int] == (key@, one@));
                    assert(typed_views(projected@) =~= typed_views(before).push(typed[i as int]));
                    assert(base + extra.push(typed[i as int]) =~= (base + extra).push(typed[i as int]));
                    extra = extra.push(typed[i as int]);
                }
            },
        }
        i += 1;
    }
    if validate_active_state_identities(&projected).is_err() {
        return Err(StableJournalError::MigrationConflict);
    }
    if validate_durable_delegation_graph(&projected).is_err() {
        return Err(StableJournalError::MigrationConflict);
    }
    Ok((map, added))
}

} // verus!
