//! Records of the journal: their form, and what makes a set of them sound.

use nfsembed::bytemap::ByteMap;
use nfsembed::check::validate_key_record;
use nfsembed::codec::{BinaryDecoder, ExportId, StableObject};
use nfsembed::commit::{plan_live_record_updates, StableMutation};
use nfsembed::entropy::{accept_array, accept_boot_tag, random_array_excluding, random_boot_tag};
use nfsembed::error::StableJournalError;
use nfsembed::layout::ENCODED_LOCK_RANGE_BYTES;
use nfsembed::limits::StableJournalLimits;
use nfsembed::record::{
    stable_kind_code, BootRecord, ClientRecord, DelegationRecord, HandleKeyRecord, JournalKey, JournalRecord,
    LockRangeRecord, LockRecord, OpenContributionRecord, OpenRecord, ReplayOwnerKind, ReplayRecord,
    ReplayRenewalSource, RevocationReason, RevocationRecord, SchemaRecord, ServerIdentityRecord, StableKey,
    StableRecordKind, MAX_DELEGATION_OBJECT_ID_BYTES, SCHEMA_VERSION,
};
use nfsembed::snapshot::{decode_snapshot, set_once, stable_record_from_typed, StableSnapshot};
use nfsembed::transfer::{sanitize_typed_records, validate_active_state_identities};
use nfsembed::wire::{decode_boot, validate_migration_snapshot, MigrationStableSnapshot};

fn test_object() -> StableObject {
    StableObject { export_id: ExportId(7), file_id: 41, generation: 3 }
}

fn client_entry(client_id: u64) -> (JournalKey, JournalRecord) {
    client_entry_with_identity(client_id, b"client-owner", [4; 8], b"nfs/client@example.test", true)
}

fn client_entry_with_identity(
    client_id: u64,
    owner: &[u8],
    verifier: [u8; 8],
    canonical_principal: &[u8],
    confirmed: bool,
) -> (JournalKey, JournalRecord) {
    (
        JournalKey::Client { client_id },
        JournalRecord::Client(ClientRecord {
            client_id,
            owner: owner.to_vec(),
            verifier,
            canonical_principal: canonical_principal.to_vec(),
            confirmed,
        }),
    )
}

fn test_state_token(sequence_id: u32, namespace: u32, object_id: u64) -> [u8; 16] {
    let mut token = [0; 16];
    token[..4].copy_from_slice(&sequence_id.to_be_bytes());
    token[4..8].copy_from_slice(&namespace.to_be_bytes());
    token[8..].copy_from_slice(&object_id.to_be_bytes());
    token
}

fn test_open_record(state_token: [u8; 16], client_id: u64, object: StableObject) -> JournalRecord {
    JournalRecord::Open(OpenRecord {
        state_token,
        client_id,
        owner: b"open-owner".to_vec(),
        object,
        share_access: 1,
        share_deny: 0,
        contributions: vec![OpenContributionRecord { share_access: 1, share_deny: 0, count: 1 }],
    })
}

fn test_lock_record(
    state_token: [u8; 16],
    open_state_token: [u8; 16],
    client_id: u64,
    object: StableObject,
) -> JournalRecord {
    JournalRecord::Lock(LockRecord {
        state_token,
        open_state_token,
        client_id,
        owner: b"lock-owner".to_vec(),
        object,
        ranges: vec![LockRangeRecord { offset: 0, length: 1, write: false }],
    })
}

fn delegation_entry(
    state_token: [u8; 16],
    client_id: u64,
    object: StableObject,
    write: bool,
    persistent_object_id: &[u8],
) -> (JournalKey, JournalRecord) {
    (
        JournalKey::Delegation { state_token },
        JournalRecord::Delegation(DelegationRecord {
            state_token,
            client_id,
            object,
            write,
            requested_space: if write { 4096 } else { 0 },
            persistent_object_id: persistent_object_id.to_vec(),
        }),
    )
}

fn revocation_entry(state_token: [u8; 16], client_id: u64) -> (JournalKey, JournalRecord) {
    (
        JournalKey::Revocation { state_token },
        JournalRecord::Revocation(RevocationRecord {
            state_token,
            client_id,
            reason: RevocationReason::Conflict,
            revoked_at_unix_seconds: 18,
        }),
    )
}

fn migration_snapshot(
    records: Vec<(JournalKey, JournalRecord)>,
    limits: StableJournalLimits,
) -> MigrationStableSnapshot {
    let mut records = records
        .iter()
        .map(|(key, record)| stable_record_from_typed(key, record, limits).unwrap())
        .collect::<Vec<_>>();
    records.sort_by(|left, right| {
        stable_kind_code(left.key.kind)
            .cmp(&stable_kind_code(right.key.kind))
            .then_with(|| left.key.key.cmp(&right.key.key))
    });
    MigrationStableSnapshot {
        source_generation: 1,
        server_identity: ServerIdentityRecord { identity: [1; 16] },
        boot: BootRecord { verifier: [2; 8], boot_tag: 3, started_at_unix_seconds: 4, clean_shutdown: false },
        handle_key: HandleKeyRecord { instance_id: [5; 8], secret: [6; 32] },
        records,
    }
}

#[test]
fn duplicate_active_state_identity_is_rejected_across_kinds_and_sequences() {
    let object = test_object();
    let open_token = test_state_token(1, 0x1020_3040, 51);
    let duplicate_open_token = test_state_token(9, 0x1020_3040, 51);
    let records = vec![(
        JournalKey::Open { state_token: open_token },
        test_open_record(open_token, 37, object),
    )];
    let duplicates = [
        (
            JournalKey::Open { state_token: duplicate_open_token },
            test_open_record(duplicate_open_token, 37, object),
        ),
        (
            JournalKey::Lock { state_token: duplicate_open_token },
            test_lock_record(duplicate_open_token, open_token, 37, object),
        ),
        (
            JournalKey::Delegation { state_token: duplicate_open_token },
            JournalRecord::Delegation(DelegationRecord {
                state_token: duplicate_open_token,
                client_id: 37,
                object,
                write: false,
                requested_space: 0,
                persistent_object_id: b"object-51".to_vec(),
            }),
        ),
    ];

    for duplicate in duplicates {
        let mut candidate = records.clone();
        candidate.push(duplicate);
        assert_eq!(
            validate_active_state_identities(&candidate).unwrap_err(),
            StableJournalError::Corrupt("duplicate stable state object identity")
        );
    }
}

#[test]
fn lock_ancestry_uses_the_open_identity_and_checks_its_owner_and_object() {
    let object = test_object();
    let open_token = test_state_token(7, 0x1020_3040, 61);
    let earlier_open_token = test_state_token(1, 0x1020_3040, 61);
    let lock_token = test_state_token(3, 0x5060_7080, 62);
    let open = (
        JournalKey::Open { state_token: open_token },
        test_open_record(open_token, 37, object),
    );
    let lock_key = JournalKey::Lock { state_token: lock_token };
    let valid_lock = test_lock_record(lock_token, earlier_open_token, 37, object);

    validate_active_state_identities(&vec![open.clone(), (lock_key.clone(), valid_lock)]).unwrap();

    let wrong_client = test_lock_record(lock_token, earlier_open_token, 38, object);
    assert_eq!(
        validate_active_state_identities(&vec![open.clone(), (lock_key.clone(), wrong_client)]).unwrap_err(),
        StableJournalError::Corrupt("stable lock does not match its open state")
    );

    let wrong_object = test_lock_record(
        lock_token,
        earlier_open_token,
        37,
        StableObject { file_id: object.file_id + 1, ..object },
    );
    assert_eq!(
        validate_active_state_identities(&vec![open, (lock_key, wrong_object)]).unwrap_err(),
        StableJournalError::Corrupt("stable lock does not match its open state")
    );
}

#[test]
fn ordinary_snapshot_decode_rejects_duplicate_state_object_identities() {
    let limits = StableJournalLimits::default();
    let object = test_object();
    let open_token = test_state_token(1, 0x1020_3040, 71);
    let delegation_token = test_state_token(2, 0x1020_3040, 71);
    let typed = [
        client_entry(37),
        (
            JournalKey::Open { state_token: open_token },
            test_open_record(open_token, 37, object),
        ),
        (
            JournalKey::Delegation { state_token: delegation_token },
            JournalRecord::Delegation(DelegationRecord {
                state_token: delegation_token,
                client_id: 37,
                object,
                write: true,
                requested_space: 4096,
                persistent_object_id: b"object-71".to_vec(),
            }),
        ),
    ];
    let snapshot = StableSnapshot {
        fence_token: b"test-fence".to_vec(),
        generation: 1,
        records: typed
            .iter()
            .map(|(key, record)| stable_record_from_typed(key, record, limits).unwrap())
            .collect(),
    };

    assert_eq!(
        decode_snapshot(&snapshot.records, limits).err().unwrap(),
        StableJournalError::Corrupt("duplicate stable state object identity")
    );
}

#[test]
fn active_state_identity_validation_handles_a_large_linear_image() {
    const STATE_PAIRS: u64 = 8_192;

    let object = test_object();
    let mut records = Vec::with_capacity((STATE_PAIRS as usize) * 2);
    for object_id in 1..=STATE_PAIRS {
        let open_token = test_state_token(7, 0x1020_3040, object_id);
        let saved_open_token = test_state_token(1, 0x1020_3040, object_id);
        let lock_token = test_state_token(3, 0x5060_7080, object_id);
        records.push((
            JournalKey::Open { state_token: open_token },
            test_open_record(open_token, 37, object),
        ));
        records.push((
            JournalKey::Lock { state_token: lock_token },
            test_lock_record(lock_token, saved_open_token, 37, object),
        ));
    }

    validate_active_state_identities(&records).unwrap();
}

#[test]
fn migration_validation_rejects_duplicate_state_identity_with_different_sequence() {
    let limits = StableJournalLimits::default();
    let object = test_object();
    let open_token = test_state_token(1, 0x1020_3040, 81);
    let delegation_token = test_state_token(9, 0x1020_3040, 81);
    let records = vec![
        client_entry(37),
        (
            JournalKey::Open { state_token: open_token },
            test_open_record(open_token, 37, object),
        ),
        (
            JournalKey::Delegation { state_token: delegation_token },
            JournalRecord::Delegation(DelegationRecord {
                state_token: delegation_token,
                client_id: 37,
                object,
                write: false,
                requested_space: 0,
                persistent_object_id: b"object-81".to_vec(),
            }),
        ),
    ];
    let snapshot = migration_snapshot(records, limits);

    assert_eq!(
        validate_migration_snapshot(&snapshot, object.export_id, limits).unwrap_err(),
        StableJournalError::Corrupt("duplicate stable state object identity")
    );
}

#[test]
fn durable_delegation_graph_uses_canonical_confirmed_client_identity() {
    let limits = StableJournalLimits::default();
    let object = test_object();
    let first_token = test_state_token(1, 0x1020_3040, 131);
    let second_token = test_state_token(1, 0x1020_3040, 132);
    let first_delegation = delegation_entry(first_token, 37, object, false, b"shared-persistent-object");
    let second_delegation = delegation_entry(second_token, 38, object, false, b"shared-persistent-object");
    let distinct_second_client =
        client_entry_with_identity(38, b"distinct-client-owner", [8; 8], b"nfs/distinct@example.test", true);
    let distinct_reads = migration_snapshot(
        vec![
            client_entry(37),
            distinct_second_client.clone(),
            first_delegation.clone(),
            second_delegation.clone(),
        ],
        limits,
    );
    validate_migration_snapshot(&distinct_reads, object.export_id, limits).unwrap();

    let aliased_reads = migration_snapshot(
        vec![client_entry(37), client_entry(38), first_delegation.clone(), second_delegation],
        limits,
    );
    assert_eq!(
        validate_migration_snapshot(&aliased_reads, object.export_id, limits).unwrap_err(),
        StableJournalError::Corrupt("conflicting stable delegation ownership graph")
    );

    let write_pair = migration_snapshot(
        vec![
            client_entry(37),
            distinct_second_client,
            first_delegation,
            delegation_entry(second_token, 38, object, true, b"shared-persistent-object"),
        ],
        limits,
    );
    assert_eq!(
        validate_migration_snapshot(&write_pair, object.export_id, limits).unwrap_err(),
        StableJournalError::Corrupt("conflicting stable delegation ownership graph")
    );
}

#[test]
fn every_typed_key_and_payload_has_a_bounded_canonical_round_trip() {
    let limits = StableJournalLimits::default();
    let object = test_object();
    let cases = vec![
        (JournalKey::Schema, JournalRecord::Schema(SchemaRecord { version: SCHEMA_VERSION })),
        (
            JournalKey::ServerIdentity,
            JournalRecord::ServerIdentity(ServerIdentityRecord { identity: [1; 16] }),
        ),
        (
            JournalKey::Boot,
            JournalRecord::Boot(BootRecord {
                verifier: [2; 8],
                boot_tag: 9,
                started_at_unix_seconds: -4,
                clean_shutdown: false,
            }),
        ),
        (
            JournalKey::HandleKey,
            JournalRecord::HandleKey(HandleKeyRecord { instance_id: [3; 8], secret: [4; 32] }),
        ),
        client_entry(37),
        (
            JournalKey::Open { state_token: [5; 16] },
            JournalRecord::Open(OpenRecord {
                state_token: [5; 16],
                client_id: 37,
                owner: b"open-owner".to_vec(),
                object,
                share_access: 3,
                share_deny: 1,
                contributions: vec![
                    OpenContributionRecord { share_access: 1, share_deny: 0, count: 1 },
                    OpenContributionRecord { share_access: 2, share_deny: 1, count: 1 },
                ],
            }),
        ),
        (
            JournalKey::Lock { state_token: [6; 16] },
            JournalRecord::Lock(LockRecord {
                state_token: [6; 16],
                open_state_token: [5; 16],
                client_id: 37,
                owner: b"lock-owner".to_vec(),
                object,
                ranges: vec![LockRangeRecord { offset: 1024, length: 0, write: true }],
            }),
        ),
        (
            JournalKey::Delegation { state_token: [7; 16] },
            JournalRecord::Delegation(DelegationRecord {
                state_token: [7; 16],
                client_id: 37,
                object,
                write: false,
                requested_space: 4096,
                persistent_object_id: b"persistent-object-41".to_vec(),
            }),
        ),
        (
            JournalKey::Revocation { state_token: [8; 16] },
            JournalRecord::Revocation(RevocationRecord {
                state_token: [8; 16],
                client_id: 37,
                reason: RevocationReason::Conflict,
                revoked_at_unix_seconds: 18,
            }),
        ),
        (
            JournalKey::Replay {
                client_id: 37,
                owner_kind: ReplayOwnerKind::Open,
                owner: b"open-owner".to_vec(),
            },
            JournalRecord::Replay(ReplayRecord {
                client_id: 37,
                owner_kind: ReplayOwnerKind::Open,
                owner: b"open-owner".to_vec(),
                sequence_id: 11,
                request_digest: [9; 32],
                reply: b"encoded-reply".to_vec(),
                current_object: Some(object),
                renewal_source: ReplayRenewalSource::StateId { client_id: 37 },
            }),
        ),
    ];

    for (key, record) in cases {
        let stable_key = key.encode(limits).unwrap();
        let payload = record.encode(limits).unwrap();
        assert_eq!(JournalKey::decode(&stable_key, limits).unwrap(), key);
        let decoded = JournalRecord::decode(&payload, limits);
        assert!(decoded.is_ok_and(|decoded| decoded == record));
        validate_key_record(&key, &record).unwrap();
    }
}

#[test]
fn delegation_record_rejects_an_unbounded_persistent_object_identity() {
    let record = JournalRecord::Delegation(DelegationRecord {
        state_token: [7; 16],
        client_id: 37,
        object: test_object(),
        write: true,
        requested_space: 4096,
        persistent_object_id: vec![1; MAX_DELEGATION_OBJECT_ID_BYTES + 1],
    });

    assert_eq!(
        record.encode(StableJournalLimits::default()).unwrap_err(),
        StableJournalError::LimitExceeded("stable opaque field")
    );
}

#[test]
fn lock_record_requires_a_bounded_normalized_range_set() {
    let key = JournalKey::Lock { state_token: [9; 16] };
    let record = |ranges| {
        JournalRecord::Lock(LockRecord {
            state_token: [9; 16],
            open_state_token: [8; 16],
            client_id: 37,
            owner: b"lock-owner".to_vec(),
            object: test_object(),
            ranges,
        })
    };
    assert_eq!(
        stable_record_from_typed(&key, &record(Vec::new()), StableJournalLimits::default()).unwrap_err(),
        StableJournalError::Corrupt("invalid stable lock record")
    );
    assert_eq!(
        stable_record_from_typed(
            &key,
            &record(vec![
                LockRangeRecord { offset: 0, length: 10, write: true },
                LockRangeRecord { offset: 10, length: 10, write: true },
            ]),
            StableJournalLimits::default(),
        )
        .unwrap_err(),
        StableJournalError::Corrupt("invalid stable lock record")
    );

    let tiny_limits =
        StableJournalLimits { max_payload_bytes: ENCODED_LOCK_RANGE_BYTES * 2, ..StableJournalLimits::default() };
    assert_eq!(
        record(vec![
            LockRangeRecord { offset: 0, length: 1, write: true },
            LockRangeRecord { offset: 2, length: 1, write: true },
            LockRangeRecord { offset: 4, length: 1, write: true },
        ])
        .encode(tiny_limits)
        .unwrap_err(),
        StableJournalError::LimitExceeded("stable lock range count")
    );
}

#[test]
fn a_client_record_has_this_form() {
    let (key, record) = client_entry(0x0102_0304_0506_0708);
    let limits = StableJournalLimits::default();
    let stored = key.encode(limits).unwrap();
    assert_eq!(stored.kind, StableRecordKind::Client);
    assert_eq!(&stored.key[stored.key.len() - 8..], &[1, 2, 3, 4, 5, 6, 7, 8]);
    let payload = record.encode(limits).unwrap();
    let owner = b"client-owner";
    let at = payload.windows(owner.len()).position(|part| part == owner).unwrap();
    assert_eq!(&payload[at - 4..at], &[0, 0, 0, 12]);
    assert_eq!(payload.last(), Some(&1));
}

#[test]
fn production_defaults_are_the_defaults() {
    assert_eq!(StableJournalLimits::production_defaults(), StableJournalLimits::default());
    StableJournalLimits::default().validate().unwrap();
    let none = StableJournalLimits { max_records: 0, ..StableJournalLimits::default() };
    assert_eq!(none.validate().unwrap_err(), StableJournalError::InvalidLimits);
}

#[test]
fn unknown_tags_and_trailing_bytes_are_refused() {
    let limits = StableJournalLimits::default();
    let (key, record) = client_entry(5);
    let mut payload = record.encode(limits).unwrap();
    payload.push(0);
    assert!(JournalRecord::decode(&payload, limits).is_err());
    payload.truncate(3);
    assert!(JournalRecord::decode(&payload, limits).is_err());
    let stored = key.encode(limits).unwrap();
    let moved = StableKey { kind: StableRecordKind::Server, key: stored.key.clone() };
    assert!(JournalKey::decode(&moved, limits).is_err());
}

#[test]
fn a_revoked_delegation_is_left_out_with_its_revocation() {
    let object = test_object();
    let token = test_state_token(1, 0x1020_3040, 7);
    let records = vec![
        client_entry(37),
        delegation_entry(token, 37, object, false, b"object"),
        revocation_entry(token, 37),
    ];
    let (kept, gone) = sanitize_typed_records(records);
    assert_eq!(kept.len(), 1);
    assert!(kept[0] == client_entry(37));
    assert_eq!(
        gone,
        vec![JournalKey::Delegation { state_token: token }, JournalKey::Revocation { state_token: token }]
    );
}

#[test]
fn a_payload_is_the_only_one_of_its_record() {
    let limits = StableJournalLimits::default();
    let (key, record) = client_entry(37);
    let payload = record.encode(limits).unwrap();
    let read = JournalRecord::decode(&payload, limits).ok().unwrap();
    assert!(read == record);
    assert_eq!(read.encode(limits).unwrap(), payload);
    let stored = key.encode(limits).unwrap();
    let named = JournalKey::decode(&stored, limits).unwrap();
    assert_eq!(named, key);
    assert_eq!(named.encode(limits).unwrap(), stored);

    let mut other = payload;
    assert_eq!(other.pop(), Some(1));
    other.push(2);
    assert_eq!(
        JournalRecord::decode(&other, limits).err(),
        Some(StableJournalError::Corrupt("non-canonical stable boolean"))
    );
}

#[test]
fn a_field_that_cannot_be_read_leaves_the_reader_where_it_was() {
    let bytes = [0, 0, 0, 3, 7, 8];
    let mut decoder = BinaryDecoder::new(&bytes);
    assert!(decoder.take(7).is_err());
    assert!(decoder.take(usize::MAX).is_err());
    assert!(decoder.u64().is_err());
    assert_eq!(decoder.remaining(), 6);
    assert!(decoder.opaque(16).is_err());
    assert_eq!(decoder.remaining(), 2);
    assert!(decoder.boolean().is_err());
    assert_eq!(decoder.remaining(), 1);
    assert_eq!(decoder.u8().ok(), Some(8));
}

#[test]
fn updates_name_each_changed_key_with_its_last_change() {
    let key = |name: u8| StableKey { kind: StableRecordKind::Client, key: vec![name] };
    let mut live: ByteMap<Vec<u8>> = ByteMap::new();
    live.insert(key(1).flat(), b"one".to_vec());
    let mutations = vec![
        StableMutation::Put { key: key(2), payload: b"two".to_vec() },
        StableMutation::Delete { key: key(3) },
        StableMutation::Delete { key: key(1) },
        StableMutation::Put { key: key(2), payload: b"second".to_vec() },
    ];
    let updates = plan_live_record_updates(&live, &mutations, 1).ok().unwrap();
    assert_eq!(updates.len(), 3);
    assert_eq!(updates.get(&key(1).flat()), Some(&None));
    assert_eq!(updates.get(&key(2).flat()), Some(&Some(b"second".to_vec())));
    assert_eq!(updates.get(&key(3).flat()), Some(&None));
    assert_eq!(
        plan_live_record_updates(&live, &mutations[..1].to_vec(), 1).err(),
        Some(StableJournalError::LimitExceeded("stable record count"))
    );
}

#[test]
fn drawn_bytes_are_kept_unless_excluded() {
    assert_eq!(accept_array([1, 2, 3], None), Some([1, 2, 3]));
    assert_eq!(accept_array([1, 2, 3], Some([1, 2, 4])), Some([1, 2, 3]));
    assert_eq!(accept_array([1, 2, 3], Some([1, 2, 3])), None);
    let first: [u8; 8] = random_array_excluding(None).unwrap();
    let second: [u8; 8] = random_array_excluding(Some(first)).unwrap();
    assert_ne!(first, second);
    assert!(first != [0; 8] || second != [0; 8]);
}

#[test]
fn drawn_tags_are_read_most_significant_first_and_never_reserved() {
    assert_eq!(accept_boot_tag([0x12, 0x34, 0x56, 0x78], None), Some(0x1234_5678));
    assert_eq!(accept_boot_tag([0x12, 0x34, 0x56, 0x78], Some(0x7856_3412)), Some(0x1234_5678));
    assert_eq!(accept_boot_tag([0x12, 0x34, 0x56, 0x78], Some(0x1234_5678)), None);
    assert_eq!(accept_boot_tag([0; 4], None), None);
    assert_eq!(accept_boot_tag([0xff; 4], None), None);
    let first = random_boot_tag(None).unwrap();
    let second = random_boot_tag(Some(first)).unwrap();
    assert_ne!(first, second);
    assert!(first != 0 && first != u32::MAX && second != 0 && second != u32::MAX);
}

#[test]
fn a_full_slot_keeps_its_value() {
    let mut slot = None;
    assert_eq!(set_once(&mut slot, 1, "duplicate"), Ok(()));
    assert_eq!(set_once(&mut slot, 2, "duplicate"), Err(StableJournalError::Corrupt("duplicate")));
    assert_eq!(slot, Some(1));
}

#[test]
fn a_reader_stops_behind_the_parts_that_it_could_read() {
    let mut bytes = vec![7u8; 8];
    bytes.extend([0, 0, 0, 9]);
    bytes.extend([0, 0, 0]);
    let mut decoder = BinaryDecoder::new(&bytes);
    assert!(decode_boot(&mut decoder).is_err());
    assert_eq!(decoder.remaining(), 3);

    let bytes = [1, 0, 0];
    let mut decoder = BinaryDecoder::new(&bytes);
    assert!(ReplayRenewalSource::decode(&mut decoder).is_err());
    assert_eq!(decoder.remaining(), 2);
}
