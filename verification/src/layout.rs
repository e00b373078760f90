//! The byte layout of keys and records: what is written for each, and what is read back.

use vstd::prelude::*;

use crate::check::{open_checked, record_checked};
use crate::codec::{
    be32, be64, be_i64, flag, get_bytes, get_end, get_flag, get_i64, get_magic, get_object, get_opaque,
    get_option_object, get_u32, get_u64, get_u8, object_field, opaque_field, option_object_field, start, Cursor,
    ExportId, Read,
};
use crate::error::StableJournalError;
use crate::limits::StableJournalLimits;
use crate::record::{
    key_kind, key_reserved, key_tag, kind_code, kind_of_code, owner_kind_code, owner_kind_of_code, phase_code,
    phase_of_code, reason_code, reason_of_code, record_tag, BootView, CapsuleView, ClientView, DelegationView,
    HandleKeyView, KeyView, LockRangeRecord, LockView, OpenContributionRecord, OpenView, RecordView, ReplayRenewalSource,
    ReplayView, RevocationView, SchemaRecord, StableKeyView, StableRecordKind, StableRecordView,
    MAX_DELEGATION_OBJECT_ID_BYTES, MAX_OPEN_CONTRIBUTION_VARIANTS, SCHEMA_VERSION, TAG_BOOT, TAG_CLIENT,
    TAG_DELEGATION, TAG_HANDLE_KEY, TAG_LOCK, TAG_MIGRATION, TAG_OPEN, TAG_REPLAY, TAG_REVOCATION, TAG_SCHEMA,
    TAG_SERVER_IDENTITY,
};
use crate::transfer::{capsule_valid, sanitize_transfer, Transfer};

verus! {

pub const ENCODED_OPEN_CONTRIBUTION_BYTES: usize = 12;

pub const ENCODED_LOCK_RANGE_BYTES: usize = 17;

pub const MIN_ENCODED_STABLE_RECORD_BYTES: usize = 9;

/// The bytes that mark a key.
pub open spec fn key_magic() -> Seq<u8> {
    seq![78u8, 52u8, 75u8, 0u8]
}

/// The bytes that mark a record.
pub open spec fn record_magic() -> Seq<u8> {
    seq![78u8, 52u8, 82u8, 0u8]
}

/// What stands before the fields: the mark, the schema version and the tag.
pub open spec fn head_field(magic: Seq<u8>, tag: u8) -> Seq<u8> {
    magic + (be32(SCHEMA_VERSION) + seq![tag])
}

/// Reads the mark, the schema version and the tag.
#[verifier::opaque]
pub open spec fn get_head(c: Cursor, magic: Seq<u8>) -> Read<u8> {
    match get_magic(c, magic) {
        Err(e) => Err(e),
        Ok((_, c1)) => match get_u32(c1) {
            Err(e) => Err(e),
            Ok((version, c2)) => if version != SCHEMA_VERSION {
                Err(StableJournalError::UnsupportedSchema(version))
            } else {
                get_u8(c2)
            },
        },
    }
}

/// A byte string may be written as an opaque field.
pub open spec fn opaque_fits(value: Seq<u8>, limit: usize) -> bool {
    value.len() <= limit && value.len() <= u32::MAX
}

/// The fields of a key.
pub open spec fn key_fields(key: KeyView) -> Seq<u8> {
    match key {
        KeyView::Schema => seq![],
        KeyView::ServerIdentity => seq![],
        KeyView::Boot => seq![],
        KeyView::HandleKey => seq![],
        KeyView::Client { client_id } => be64(client_id),
        KeyView::Open { state_token } => state_token,
        KeyView::Lock { state_token } => state_token,
        KeyView::Delegation { state_token } => state_token,
        KeyView::Revocation { state_token } => state_token,
        KeyView::Replay { client_id, owner_kind, owner } => be64(client_id) + (seq![owner_kind_code(owner_kind)]
            + opaque_field(owner)),
        KeyView::Migration { export_id, transfer_id } => be32(export_id.0) + transfer_id,
    }
}

/// The storage key of a typed key, or why it has none.
pub open spec fn encode_key(key: KeyView, limits: StableJournalLimits) -> Result<StableKeyView, StableJournalError> {
    let bytes = head_field(key_magic(), key_tag(key)) + key_fields(key);
    if key is Replay && !opaque_fits(key->Replay_owner, limits.max_key_bytes) {
        Err(StableJournalError::LimitExceeded("stable opaque field"))
    } else if bytes.len() > limits.max_key_bytes {
        Err(StableJournalError::LimitExceeded("stable record key"))
    } else {
        Ok(StableKeyView { kind: key_kind(key), key: bytes })
    }
}

/// Reads a token of 16 bytes into a key.
pub open spec fn get_token(c: Cursor) -> Read<Seq<u8>> {
    get_bytes(c, 16)
}

/// Reads the fields of a replay key.
pub open spec fn get_replay_key(c: Cursor, limits: StableJournalLimits) -> Read<KeyView> {
    match get_u64(c) {
        Err(e) => Err(e),
        Ok((client_id, c1)) => match get_u8(c1) {
            Err(e) => Err(e),
            Ok((code, c2)) => match owner_kind_of_code(code) {
                Err(e) => Err(e),
                Ok(owner_kind) => match get_opaque(c2, limits.max_key_bytes as nat) {
                    Err(e) => Err(e),
                    Ok((owner, c3)) => Ok((KeyView::Replay { client_id, owner_kind, owner }, c3)),
                },
            },
        },
    }
}

/// Reads the fields of a migration key.
pub open spec fn get_migration_key(c: Cursor) -> Read<KeyView> {
    match get_u32(c) {
        Err(e) => Err(e),
        Ok((export, c1)) => match get_token(c1) {
            Err(e) => Err(e),
            Ok((transfer_id, c2)) => Ok((KeyView::Migration { export_id: ExportId(export), transfer_id }, c2)),
        },
    }
}

/// Reads the fields of the key that a tag announces.
#[verifier::opaque]
pub open spec fn get_key(tag: u8, c: Cursor, limits: StableJournalLimits) -> Read<KeyView> {
    if tag == TAG_SCHEMA {
        Ok((KeyView::Schema, c))
    } else if tag == TAG_SERVER_IDENTITY {
        Ok((KeyView::ServerIdentity, c))
    } else if tag == TAG_BOOT {
        Ok((KeyView::Boot, c))
    } else if tag == TAG_HANDLE_KEY {
        Ok((KeyView::HandleKey, c))
    } else if tag == TAG_CLIENT {
        match get_u64(c) {
            Err(e) => Err(e),
            Ok((client_id, next)) => Ok((KeyView::Client { client_id }, next)),
        }
    } else if tag == TAG_OPEN {
        match get_token(c) {
            Err(e) => Err(e),
            Ok((state_token, next)) => Ok((KeyView::Open { state_token }, next)),
        }
    } else if tag == TAG_LOCK {
        match get_token(c) {
            Err(e) => Err(e),
            Ok((state_token, next)) => Ok((KeyView::Lock { state_token }, next)),
        }
    } else if tag == TAG_DELEGATION {
        match get_token(c) {
            Err(e) => Err(e),
            Ok((state_token, next)) => Ok((KeyView::Delegation { state_token }, next)),
        }
    } else if tag == TAG_REVOCATION {
        match get_token(c) {
            Err(e) => Err(e),
            Ok((state_token, next)) => Ok((KeyView::Revocation { state_token }, next)),
        }
    } else if tag == TAG_REPLAY {
        get_replay_key(c, limits)
    } else if tag == TAG_MIGRATION {
        get_migration_key(c)
    } else {
        Err(StableJournalError::UnknownRecordTag(tag))
    }
}

/// The typed key that a storage key stands for, or why it stands for none.
#[verifier::opaque]
pub open spec fn parse_key(key: StableKeyView, limits: StableJournalLimits) -> Result<KeyView, StableJournalError> {
    if key.key.len() > limits.max_key_bytes {
        Err(StableJournalError::LimitExceeded("stable record key"))
    } else {
        match get_head(start(key.key), key_magic()) {
            Err(e) => Err(e),
            Ok((tag, c)) => match get_key(tag, c, limits) {
                Err(e) => Err(e),
                Ok((decoded, last)) => match get_end(last) {
                    Err(e) => Err(e),
                    Ok(_) => if key.kind != key_kind(decoded) {
                        Err(StableJournalError::Corrupt("stable record kind does not match its typed key"))
                    } else {
                        Ok(decoded)
                    },
                },
            },
        }
    }
}

/// The fields of a boot record.
pub open spec fn boot_fields(r: BootView) -> Seq<u8> {
    r.verifier + (be32(r.boot_tag) + (be_i64(r.started_at_unix_seconds) + flag(r.clean_shutdown)))
}

/// Reads a boot record.
#[verifier::opaque]
pub open spec fn get_boot(c: Cursor) -> Read<BootView> {
    match get_bytes(c, 8) {
        Err(e) => Err(e),
        Ok((verifier, c1)) => match get_u32(c1) {
            Err(e) => Err(e),
            Ok((boot_tag, c2)) => match get_i64(c2) {
                Err(e) => Err(e),
                Ok((started_at_unix_seconds, c3)) => match get_flag(c3) {
                    Err(e) => Err(e),
                    Ok((clean_shutdown, c4)) => Ok(
                        (BootView { verifier, boot_tag, started_at_unix_seconds, clean_shutdown }, c4),
                    ),
                },
            },
        },
    }
}

/// The fields of a handle key.
pub open spec fn handle_key_fields(r: HandleKeyView) -> Seq<u8> {
    r.instance_id + r.secret
}

/// Reads a handle key.
#[verifier::opaque]
pub open spec fn get_handle_key(c: Cursor) -> Read<HandleKeyView> {
    match get_bytes(c, 8) {
        Err(e) => Err(e),
        Ok((instance_id, c1)) => match get_bytes(c1, 32) {
            Err(e) => Err(e),
            Ok((secret, c2)) => Ok((HandleKeyView { instance_id, secret }, c2)),
        },
    }
}

/// The fields of a client record.
pub open spec fn client_fields(r: ClientView) -> Seq<u8> {
    be64(r.client_id) + (opaque_field(r.owner) + (r.verifier + (opaque_field(r.canonical_principal) + flag(
        r.confirmed,
    ))))
}

/// Reads a client record.
#[verifier::opaque]
pub open spec fn get_client(c: Cursor, limits: StableJournalLimits) -> Read<ClientView> {
    let limit = limits.max_payload_bytes as nat;
    match get_u64(c) {
        Err(e) => Err(e),
        Ok((client_id, c1)) => match get_opaque(c1, limit) {
            Err(e) => Err(e),
            Ok((owner, c2)) => match get_bytes(c2, 8) {
                Err(e) => Err(e),
                Ok((verifier, c3)) => match get_opaque(c3, limit) {
                    Err(e) => Err(e),
                    Ok((canonical_principal, c4)) => match get_flag(c4) {
                        Err(e) => Err(e),
                        Ok((confirmed, c5)) => Ok(
                            (ClientView { client_id, owner, verifier, canonical_principal, confirmed }, c5),
                        ),
                    },
                },
            },
        },
    }
}

/// The fields of one contribution.
pub open spec fn contribution_fields(r: OpenContributionRecord) -> Seq<u8> {
    be32(r.share_access) + (be32(r.share_deny) + be32(r.count))
}

/// The fields of the first `n` contributions.
pub open spec fn contributions_fields(s: Seq<OpenContributionRecord>, n: nat) -> Seq<u8>
    decreases n,
{
    if n == 0 {
        seq![]
    } else {
        contributions_fields(s, (n - 1) as nat) + contribution_fields(s[n - 1])
    }
}

/// Reads one contribution.
pub open spec fn get_contribution(c: Cursor) -> Read<OpenContributionRecord> {
    match get_u32(c) {
        Err(e) => Err(e),
        Ok((share_access, c1)) => match get_u32(c1) {
            Err(e) => Err(e),
            Ok((share_deny, c2)) => match get_u32(c2) {
                Err(e) => Err(e),
                Ok((count, c3)) => Ok((OpenContributionRecord { share_access, share_deny, count }, c3)),
            },
        },
    }
}

/// Reads `n` contributions.
pub open spec fn get_contributions(c: Cursor, n: nat) -> Read<Seq<OpenContributionRecord>>
    decreases n,
{
    if n == 0 {
        Ok((seq![], c))
    } else {
        match get_contributions(c, (n - 1) as nat) {
            Err(e) => Err(e),
            Ok((done, c1)) => match get_contribution(c1) {
                Err(e) => Err(e),
                Ok((one, c2)) => Ok((done.push(one), c2)),
            },
        }
    }
}

/// The fields of an open record.
pub open spec fn open_fields(r: OpenView) -> Seq<u8> {
    r.state_token + (be64(r.client_id) + (opaque_field(r.owner) + (object_field(r.object) + (be32(r.share_access) + (
    be32(r.share_deny) + (be32(r.contributions.len() as u32) + contributions_fields(
        r.contributions,
        r.contributions.len(),
    )))))))
}

/// The contributions behind their count; at least one and no more than there are modes.
#[verifier::opaque]
pub open spec fn get_contribution_set(c: Cursor) -> Read<Seq<OpenContributionRecord>> {
    match get_u32(c) {
        Err(e) => Err(e),
        Ok((count, c1)) => if count == 0 || count > MAX_OPEN_CONTRIBUTION_VARIANTS {
            Err(StableJournalError::LimitExceeded("stable OPEN contribution variants"))
        } else if count > c1.rest.len() / (ENCODED_OPEN_CONTRIBUTION_BYTES as nat) {
            Err(StableJournalError::Corrupt("truncated stable OPEN contributions"))
        } else {
            get_contributions(c1, count as nat)
        },
    }
}

/// Reads an open record and checks it.
#[verifier::opaque]
pub open spec fn get_open(c: Cursor, limits: StableJournalLimits) -> Read<OpenView> {
    match get_bytes(c, 16) {
        Err(e) => Err(e),
        Ok((state_token, c1)) => match get_u64(c1) {
            Err(e) => Err(e),
            Ok((client_id, c2)) => match get_opaque(c2, limits.max_payload_bytes as nat) {
                Err(e) => Err(e),
                Ok((owner, c3)) => match get_object(c3) {
                    Err(e) => Err(e),
                    Ok((object, c4)) => match get_u32(c4) {
                        Err(e) => Err(e),
                        Ok((share_access, c5)) => match get_u32(c5) {
                            Err(e) => Err(e),
                            Ok((share_deny, c6)) => match get_contribution_set(c6) {
                                Err(e) => Err(e),
                                Ok((contributions, c7)) => {
                                    let r = OpenView {
                                        state_token,
                                        client_id,
                                        owner,
                                        object,
                                        share_access,
                                        share_deny,
                                        contributions,
                                    };
                                    match open_checked(r) {
                                        Err(e) => Err(e),
                                        Ok(_) => Ok((r, c7)),
                                    }
                                },
                            },
                        },
                    },
                },
            },
        },
    }
}

/// The fields of one range.
pub open spec fn range_fields(r: LockRangeRecord) -> Seq<u8> {
    be64(r.offset) + (be64(r.length) + flag(r.write))
}

/// The fields of the first `n` ranges.
pub open spec fn ranges_fields(s: Seq<LockRangeRecord>, n: nat) -> Seq<u8>
    decreases n,
{
    if n == 0 {
        seq![]
    } else {
        ranges_fields(s, (n - 1) as nat) + range_fields(s[n - 1])
    }
}

/// Reads one range.
pub open spec fn get_range(c: Cursor) -> Read<LockRangeRecord> {
    match get_u64(c) {
        Err(e) => Err(e),
        Ok((offset, c1)) => match get_u64(c1) {
            Err(e) => Err(e),
            Ok((length, c2)) => match get_flag(c2) {
                Err(e) => Err(e),
                Ok((write, c3)) => Ok((LockRangeRecord { offset, length, write }, c3)),
            },
        },
    }
}

/// Reads `n` ranges.
pub open spec fn get_ranges(c: Cursor, n: nat) -> Read<Seq<LockRangeRecord>>
    decreases n,
{
    if n == 0 {
        Ok((seq![], c))
    } else {
        match get_ranges(c, (n - 1) as nat) {
            Err(e) => Err(e),
            Ok((done, c1)) => match get_range(c1) {
                Err(e) => Err(e),
                Ok((one, c2)) => Ok((done.push(one), c2)),
            },
        }
    }
}

/// The most ranges that a payload has room for.
pub open spec fn range_limit(limits: StableJournalLimits) -> int {
    limits.max_payload_bytes as int / ENCODED_LOCK_RANGE_BYTES as int
}

/// The ranges behind their count.
#[verifier::opaque]
pub open spec fn get_range_set(c: Cursor, limits: StableJournalLimits) -> Read<Seq<LockRangeRecord>> {
    match get_u32(c) {
        Err(e) => Err(e),
        Ok((count, c1)) => if count > range_limit(limits) {
            Err(StableJournalError::LimitExceeded("stable lock range count"))
        } else if count > c1.rest.len() / (ENCODED_LOCK_RANGE_BYTES as nat) {
            Err(StableJournalError::Corrupt("truncated stable lock range set"))
        } else {
            get_ranges(c1, count as nat)
        },
    }
}

/// The fields of a lock record.
pub open spec fn lock_fields(r: LockView) -> Seq<u8> {
    r.state_token + (r.open_state_token + (be64(r.client_id) + (opaque_field(r.owner) + (object_field(r.object) + (
    be32(r.ranges.len() as u32) + ranges_fields(r.ranges, r.ranges.len()))))))
}

/// Reads a lock record.
#[verifier::opaque]
pub open spec fn get_lock(c: Cursor, limits: StableJournalLimits) -> Read<LockView> {
    match get_bytes(c, 16) {
        Err(e) => Err(e),
        Ok((state_token, c1)) => match get_bytes(c1, 16) {
            Err(e) => Err(e),
            Ok((open_state_token, c2)) => match get_u64(c2) {
                Err(e) => Err(e),
                Ok((client_id, c3)) => match get_opaque(c3, limits.max_payload_bytes as nat) {
                    Err(e) => Err(e),
                    Ok((owner, c4)) => match get_object(c4) {
                        Err(e) => Err(e),
                        Ok((object, c5)) => match get_range_set(c5, limits) {
                            Err(e) => Err(e),
                            Ok((ranges, c6)) => Ok(
                                (LockView { state_token, open_state_token, client_id, owner, object, ranges }, c6),
                            ),
                        },
                    },
                },
            },
        },
    }
}

/// The fields of a delegation record.
pub open spec fn delegation_fields(r: DelegationView) -> Seq<u8> {
    r.state_token + (be64(r.client_id) + (object_field(r.object) + (flag(r.write) + (be64(r.requested_space)
        + opaque_field(r.persistent_object_id)))))
}

/// Reads a delegation record.
#[verifier::opaque]
pub open spec fn get_delegation(c: Cursor) -> Read<DelegationView> {
    match get_bytes(c, 16) {
        Err(e) => Err(e),
        Ok((state_token, c1)) => match get_u64(c1) {
            Err(e) => Err(e),
            Ok((client_id, c2)) => match get_object(c2) {
                Err(e) => Err(e),
                Ok((object, c3)) => match get_flag(c3) {
                    Err(e) => Err(e),
                    Ok((write, c4)) => match get_u64(c4) {
                        Err(e) => Err(e),
                        Ok((requested_space, c5)) => match get_opaque(c5, MAX_DELEGATION_OBJECT_ID_BYTES as nat) {
                            Err(e) => Err(e),
                            Ok((persistent_object_id, c6)) => Ok(
                                (
                                    DelegationView {
                                        state_token,
                                        client_id,
                                        object,
                                        write,
                                        requested_space,
                                        persistent_object_id,
                                    },
                                    c6,
                                ),
                            ),
                        },
                    },
                },
            },
        },
    }
}

/// The fields of a revocation record.
pub open spec fn revocation_fields(r: RevocationView) -> Seq<u8> {
    r.state_token + (be64(r.client_id) + (seq![reason_code(r.reason)] + be_i64(r.revoked_at_unix_seconds)))
}

/// Reads a revocation record.
#[verifier::opaque]
pub open spec fn get_revocation(c: Cursor) -> Read<RevocationView> {
    match get_bytes(c, 16) {
        Err(e) => Err(e),
        Ok((state_token, c1)) => match get_u64(c1) {
            Err(e) => Err(e),
            Ok((client_id, c2)) => match get_u8(c2) {
                Err(e) => Err(e),
                Ok((code, c3)) => match reason_of_code(code) {
                    Err(e) => Err(e),
                    Ok(reason) => match get_i64(c3) {
                        Err(e) => Err(e),
                        Ok((revoked_at_unix_seconds, c4)) => Ok(
                            (RevocationView { state_token, client_id, reason, revoked_at_unix_seconds }, c4),
                        ),
                    },
                },
            },
        },
    }
}

/// The fields of a renewal source.
pub open spec fn renewal_fields(source: ReplayRenewalSource) -> Seq<u8> {
    match source {
        ReplayRenewalSource::Unset => seq![0u8],
        ReplayRenewalSource::StateId { client_id } => seq![1u8] + be64(client_id),
    }
}

/// Reads a renewal source.
#[verifier::opaque]
pub open spec fn get_renewal(c: Cursor) -> Read<ReplayRenewalSource> {
    match get_u8(c) {
        Err(e) => Err(e),
        Ok((code, c1)) => if code == 0 {
            Ok((ReplayRenewalSource::Unset, c1))
        } else if code == 1 {
            match get_u64(c1) {
                Err(e) => Err(e),
                Ok((client_id, c2)) => Ok((ReplayRenewalSource::StateId { client_id }, c2)),
            }
        } else {
            Err(StableJournalError::Corrupt("invalid replay renewal source"))
        },
    }
}

/// The fields of a replay record.
pub open spec fn replay_fields(r: ReplayView) -> Seq<u8> {
    be64(r.client_id) + (seq![owner_kind_code(r.owner_kind)] + (opaque_field(r.owner) + (be32(r.sequence_id) + (
    r.request_digest + (opaque_field(r.reply) + (option_object_field(r.current_object) + renewal_fields(
        r.renewal_source,
    )))))))
}

/// Reads a replay record.
#[verifier::opaque]
pub open spec fn get_replay(c: Cursor, limits: StableJournalLimits) -> Read<ReplayView> {
    let limit = limits.max_payload_bytes as nat;
    match get_u64(c) {
        Err(e) => Err(e),
        Ok((client_id, c1)) => match get_u8(c1) {
            Err(e) => Err(e),
            Ok((code, c2)) => match owner_kind_of_code(code) {
                Err(e) => Err(e),
                Ok(owner_kind) => match get_opaque(c2, limit) {
                    Err(e) => Err(e),
                    Ok((owner, c3)) => match get_u32(c3) {
                        Err(e) => Err(e),
                        Ok((sequence_id, c4)) => match get_bytes(c4, 32) {
                            Err(e) => Err(e),
                            Ok((request_digest, c5)) => match get_opaque(c5, limit) {
                                Err(e) => Err(e),
                                Ok((reply, c6)) => match get_option_object(c6) {
                                    Err(e) => Err(e),
                                    Ok((current_object, c7)) => match get_renewal(c7) {
                                        Err(e) => Err(e),
                                        Ok((renewal_source, c8)) => Ok(
                                            (
                                                ReplayView {
                                                    client_id,
                                                    owner_kind,
                                                    owner,
                                                    sequence_id,
                                                    request_digest,
                                                    reply,
                                                    current_object,
                                                    renewal_source,
                                                },
                                                c8,
                                            ),
                                        ),
                                    },
                                },
                            },
                        },
                    },
                },
            },
        },
    }
}

/// The fields of one stored record inside a capsule.
pub open spec fn stable_fields(r: StableRecordView) -> Seq<u8> {
    seq![kind_code(r.key.kind)] + (opaque_field(r.key.key) + opaque_field(r.payload))
}

/// The fields of the first `n` stored records.
pub open spec fn stables_fields(s: Seq<StableRecordView>, n: nat) -> Seq<u8>
    decreases n,
{
    if n == 0 {
        seq![]
    } else {
        stables_fields(s, (n - 1) as nat) + stable_fields(s[n - 1])
    }
}

/// Reads one stored record, without looking into it.
#[verifier::opaque]
pub open spec fn get_stable(c: Cursor, limits: StableJournalLimits) -> Read<StableRecordView> {
    match get_u8(c) {
        Err(e) => Err(e),
        Ok((code, c1)) => match kind_of_code(code) {
            Err(e) => Err(e),
            Ok(kind) => match get_opaque(c1, limits.max_key_bytes as nat) {
                Err(e) => Err(e),
                Ok((key, c2)) => match get_opaque(c2, limits.max_payload_bytes as nat) {
                    Err(e) => Err(e),
                    Ok((payload, c3)) => Ok((StableRecordView { key: StableKeyView { kind, key }, payload }, c3)),
                },
            },
        },
    }
}

/// The first fields of a capsule: the transfer and where it comes from.
pub open spec fn capsule_origin_fields(r: CapsuleView) -> Seq<u8> {
    r.transfer_id + (be32(r.export_id.0) + (be64(r.fsid_major) + (be64(r.fsid_minor) + (be64(r.source_generation)
        + be64(r.coordinator_generation)))))
}

/// The next fields of a capsule: digests, identities and the phase.
pub open spec fn capsule_identity_fields(r: CapsuleView) -> Seq<u8> {
    r.coordinator_token_digest + (r.bundle_digest + (r.server_identity + (boot_fields(r.boot) + (handle_key_fields(
        r.handle_key,
    ) + seq![phase_code(r.phase)]))))
}

/// The fields of a capsule.
pub open spec fn capsule_fields(r: CapsuleView) -> Seq<u8> {
    capsule_origin_fields(r) + (capsule_identity_fields(r) + (be32(r.records.len() as u32) + stables_fields(
        r.records,
        r.records.len(),
    )))
}

/// Where a capsule comes from.
#[verifier::ext_equal]
pub struct OriginView {
    pub transfer_id: Seq<u8>,
    pub export_id: ExportId,
    pub fsid_major: u64,
    pub fsid_minor: u64,
    pub source_generation: u64,
    pub coordinator_generation: u64,
}

/// Reads where a capsule comes from.
#[verifier::opaque]
pub open spec fn get_origin(c: Cursor) -> Read<OriginView> {
    match get_bytes(c, 16) {
        Err(e) => Err(e),
        Ok((transfer_id, c1)) => match get_u32(c1) {
            Err(e) => Err(e),
            Ok((export, c2)) => match get_u64(c2) {
                Err(e) => Err(e),
                Ok((fsid_major, c3)) => match get_u64(c3) {
                    Err(e) => Err(e),
                    Ok((fsid_minor, c4)) => match get_u64(c4) {
                        Err(e) => Err(e),
                        Ok((source_generation, c5)) => match get_u64(c5) {
                            Err(e) => Err(e),
                            Ok((coordinator_generation, c6)) => Ok(
                                (
                                    OriginView {
                                        transfer_id,
                                        export_id: ExportId(export),
                                        fsid_major,
                                        fsid_minor,
                                        source_generation,
                                        coordinator_generation,
                                    },
                                    c6,
                                ),
                            ),
                        },
                    },
                },
            },
        },
    }
}

/// Reads a capsule up to its records.
#[verifier::opaque]
pub open spec fn get_capsule_head(c: Cursor) -> Read<CapsuleView> {
    match get_origin(c) {
        Err(e) => Err(e),
        Ok((origin, c1)) => match get_bytes(c1, 32) {
            Err(e) => Err(e),
            Ok((coordinator_token_digest, c2)) => match get_bytes(c2, 32) {
                Err(e) => Err(e),
                Ok((bundle_digest, c3)) => match get_bytes(c3, 16) {
                    Err(e) => Err(e),
                    Ok((server_identity, c4)) => match get_boot(c4) {
                        Err(e) => Err(e),
                        Ok((boot, c5)) => match get_handle_key(c5) {
                            Err(e) => Err(e),
                            Ok((handle_key, c6)) => match get_u8(c6) {
                                Err(e) => Err(e),
                                Ok((code, c7)) => match phase_of_code(code) {
                                    Err(e) => Err(e),
                                    Ok(phase) => Ok(
                                        (
                                            CapsuleView {
                                                transfer_id: origin.transfer_id,
                                                export_id: origin.export_id,
                                                fsid_major: origin.fsid_major,
                                                fsid_minor: origin.fsid_minor,
                                                source_generation: origin.source_generation,
                                                coordinator_generation: origin.coordinator_generation,
                                                coordinator_token_digest,
                                                bundle_digest,
                                                server_identity,
                                                boot,
                                                handle_key,
                                                phase,
                                                records: seq![],
                                            },
                                            c7,
                                        ),
                                    ),
                                },
                            },
                        },
                    },
                },
            },
        },
    }
}

/// A capsule with other records.
pub open spec fn with_records(r: CapsuleView, records: Seq<StableRecordView>) -> CapsuleView {
    CapsuleView { records, ..r }
}

/// Reads the fields of the record that a tag announces, migration capsules aside.
#[verifier::opaque]
pub open spec fn get_plain(tag: u8, c: Cursor, limits: StableJournalLimits) -> Read<RecordView> {
    if tag == TAG_SCHEMA {
        match get_u32(c) {
            Err(e) => Err(e),
            Ok((version, next)) => Ok((RecordView::Schema(SchemaRecord { version }), next)),
        }
    } else if tag == TAG_SERVER_IDENTITY {
        match get_bytes(c, 16) {
            Err(e) => Err(e),
            Ok((identity, next)) => Ok((RecordView::ServerIdentity(identity), next)),
        }
    } else if tag == TAG_BOOT {
        match get_boot(c) {
            Err(e) => Err(e),
            Ok((r, next)) => Ok((RecordView::Boot(r), next)),
        }
    } else if tag == TAG_HANDLE_KEY {
        match get_handle_key(c) {
            Err(e) => Err(e),
            Ok((r, next)) => Ok((RecordView::HandleKey(r), next)),
        }
    } else if tag == TAG_CLIENT {
        match get_client(c, limits) {
            Err(e) => Err(e),
            Ok((r, next)) => Ok((RecordView::Client(r), next)),
        }
    } else if tag == TAG_OPEN {
        match get_open(c, limits) {
            Err(e) => Err(e),
            Ok((r, next)) => Ok((RecordView::Open(r), next)),
        }
    } else if tag == TAG_LOCK {
        match get_lock(c, limits) {
            Err(e) => Err(e),
            Ok((r, next)) => Ok((RecordView::Lock(r), next)),
        }
    } else if tag == TAG_DELEGATION {
        match get_delegation(c) {
            Err(e) => Err(e),
            Ok((r, next)) => Ok((RecordView::Delegation(r), next)),
        }
    } else if tag == TAG_REVOCATION {
        match get_revocation(c) {
            Err(e) => Err(e),
            Ok((r, next)) => Ok((RecordView::Revocation(r), next)),
        }
    } else if tag == TAG_REPLAY {
        match get_replay(c, limits) {
            Err(e) => Err(e),
            Ok((r, next)) => Ok((RecordView::Replay(r), next)),
        }
    } else {
        Err(StableJournalError::UnknownRecordTag(tag))
    }
}

/// The typed record that a payload stands for, or why it stands for none.
pub open spec fn parse_record(bytes: Seq<u8>, limits: StableJournalLimits) -> Result<RecordView, StableJournalError>
    decreases bytes.len(), 2nat, 0nat,
{
    if bytes.len() > limits.max_payload_bytes {
        Err(StableJournalError::LimitExceeded("stable record payload"))
    } else {
        match get_head(start(bytes), record_magic()) {
            Err(e) => Err(e),
            Ok((tag, c)) => {
                let body: Read<RecordView> = if tag == TAG_MIGRATION {
                    get_capsule(c, limits, bytes.len())
                } else {
                    get_plain(tag, c, limits)
                };
                match body {
                    Err(e) => Err(e),
                    Ok((record, last)) => match get_end(last) {
                        Err(e) => Err(e),
                        Ok(_) => match record_checked(record) {
                            Err(e) => Err(e),
                            Ok(_) => Ok(record),
                        },
                    },
                }
            },
        }
    }
}

/// Reads a capsule: its records must each be transferable, and what stays of them must be a valid image.
/// The payloads inside are shorter than `bound`, the length of the payload around them.
pub open spec fn get_capsule(c: Cursor, limits: StableJournalLimits, bound: nat) -> Read<RecordView>
    decreases bound, 1nat, 0nat,
{
    match get_capsule_head(c) {
        Err(e) => Err(e),
        Ok((head, c1)) => match get_u32(c1) {
            Err(e) => Err(e),
            Ok((count, c2)) => if count > c2.rest.len() / (MIN_ENCODED_STABLE_RECORD_BYTES as nat) {
                Err(StableJournalError::Corrupt("truncated migration record set"))
            } else {
                match get_transferred(c2, count as nat, limits, bound) {
                    Err(e) => Err(e),
                    Ok((records, c3)) => match sanitize_transfer(
                        records,
                        checked_within(records, limits, bound),
                        limits,
                    ) {
                        Err(e) => Err(e),
                        Ok((stable, _)) => match capsule_valid(
                            with_records(head, stable),
                            checked_within(stable, limits, bound),
                            limits,
                        ) {
                            Err(e) => Err(e),
                            Ok(_) => Ok((RecordView::Migration(with_records(head, stable)), c3)),
                        },
                    },
                }
            },
        },
    }
}

/// Reads `n` stored records, each of which must be transferable.
pub open spec fn get_transferred(c: Cursor, n: nat, limits: StableJournalLimits, bound: nat) -> Read<
    Seq<StableRecordView>,
>
    decreases bound, 0nat, n,
{
    if n == 0 {
        Ok((seq![], c))
    } else {
        match get_transferred(c, (n - 1) as nat, limits, bound) {
            Err(e) => Err(e),
            Ok((done, c1)) => match get_stable(c1, limits) {
                Err(e) => Err(e),
                Ok((one, c2)) => if one.payload.len() < bound {
                    match check_transfer(one, limits) {
                        Err(e) => Err(e),
                        Ok(_) => Ok((done.push(one), c2)),
                    }
                } else {
                    Err(StableJournalError::Corrupt("truncated stable record"))
                },
            },
        }
    }
}

/// The typed forms of stored records whose payloads are shorter than `bound`.
pub open spec fn checked_within(records: Seq<StableRecordView>, limits: StableJournalLimits, bound: nat) -> Seq<Transfer>
    decreases bound, 0nat, 0nat,
{
    Seq::new(
        records.len(),
        |i: int|
            if records[i].payload.len() < bound {
                check_transfer(records[i], limits)
            } else {
                Err(StableJournalError::Corrupt("truncated stable record"))
            },
    )
}

/// The typed form of a stored record that may be transferred, or why it may not.
pub open spec fn check_transfer(record: StableRecordView, limits: StableJournalLimits) -> Transfer
    decreases record.payload.len(), 3nat, 0nat,
{
    if record.key.kind == StableRecordKind::Migration {
        Err(StableJournalError::Corrupt("nested migration record"))
    } else {
        match parse_key(record.key, limits) {
            Err(e) => Err(e),
            Ok(key) => if key_reserved(key) {
                Err(StableJournalError::Corrupt("reserved record in migration state"))
            } else {
                match parse_record(record.payload, limits) {
                    Err(e) => Err(e),
                    Ok(typed) => match crate::check::pair_checked(key, typed) {
                        Err(e) => Err(e),
                        Ok(_) => Ok((key, typed)),
                    },
                }
            },
        }
    }
}

/// The typed forms of stored records.
pub open spec fn checked(records: Seq<StableRecordView>, limits: StableJournalLimits) -> Seq<Transfer> {
    Seq::new(records.len(), |i: int| check_transfer(records[i], limits))
}

/// Where every payload is shorter than the bound, the bound plays no part.
pub proof fn lemma_checked_within(records: Seq<StableRecordView>, limits: StableJournalLimits, bound: nat)
    requires
        forall|i: int| 0 <= i < records.len() ==> (#[trigger] records[i]).payload.len() < bound,
    ensures
        checked_within(records, limits, bound) == checked(records, limits),
{
    assert(checked_within(records, limits, bound) =~= checked(records, limits));
}

/// The first `n` records may be written into a capsule: each may be transferred and fits its fields.
pub open spec fn stables_writable(records: Seq<StableRecordView>, limits: StableJournalLimits, n: nat) -> Result<
    (),
    StableJournalError,
>
    decreases n,
{
    if n == 0 {
        Ok(())
    } else {
        match stables_writable(records, limits, (n - 1) as nat) {
            Err(e) => Err(e),
            Ok(_) => match check_transfer(records[n - 1], limits) {
                Err(e) => Err(e),
                Ok(_) => if !opaque_fits(records[n - 1].key.key, limits.max_key_bytes) || !opaque_fits(
                    records[n - 1].payload,
                    limits.max_payload_bytes,
                ) {
                    Err(StableJournalError::LimitExceeded("stable opaque field"))
                } else {
                    Ok(())
                },
            },
        }
    }
}

/// Why the fields of a record cannot be written, if they cannot.
pub open spec fn writable(record: RecordView, limits: StableJournalLimits) -> Result<(), StableJournalError> {
    let limit = limits.max_payload_bytes;
    match record {
        RecordView::Client(r) => if !opaque_fits(r.owner, limit) || !opaque_fits(r.canonical_principal, limit) {
            Err(StableJournalError::LimitExceeded("stable opaque field"))
        } else {
            Ok(())
        },
        RecordView::Open(r) => match open_checked(r) {
            Err(e) => Err(e),
            Ok(_) => if !opaque_fits(r.owner, limit) {
                Err(StableJournalError::LimitExceeded("stable opaque field"))
            } else {
                Ok(())
            },
        },
        RecordView::Lock(r) => if !opaque_fits(r.owner, limit) {
            Err(StableJournalError::LimitExceeded("stable opaque field"))
        } else if r.ranges.len() > range_limit(limits) || r.ranges.len() > u32::MAX {
            Err(StableJournalError::LimitExceeded("stable lock range count"))
        } else {
            Ok(())
        },
        RecordView::Delegation(r) => if !opaque_fits(r.persistent_object_id, MAX_DELEGATION_OBJECT_ID_BYTES) {
            Err(StableJournalError::LimitExceeded("stable opaque field"))
        } else {
            Ok(())
        },
        RecordView::Replay(r) => if !opaque_fits(r.owner, limit) || !opaque_fits(r.reply, limit) {
            Err(StableJournalError::LimitExceeded("stable opaque field"))
        } else {
            Ok(())
        },
        RecordView::Migration(r) => if r.records.len() > u32::MAX {
            Err(StableJournalError::LimitExceeded("migration record count"))
        } else {
            stables_writable(r.records, limits, r.records.len())
        },
        _ => Ok(()),
    }
}

/// The fields of a record.
pub open spec fn record_fields(record: RecordView) -> Seq<u8> {
    match record {
        RecordView::Schema(r) => be32(r.version),
        RecordView::ServerIdentity(identity) => identity,
        RecordView::Boot(r) => boot_fields(r),
        RecordView::HandleKey(r) => handle_key_fields(r),
        RecordView::Client(r) => client_fields(r),
        RecordView::Open(r) => open_fields(r),
        RecordView::Lock(r) => lock_fields(r),
        RecordView::Delegation(r) => delegation_fields(r),
        RecordView::Revocation(r) => revocation_fields(r),
        RecordView::Replay(r) => replay_fields(r),
        RecordView::Migration(r) => capsule_fields(r),
    }
}

/// The payload of a typed record, or why it has none.
pub open spec fn encode_record(record: RecordView, limits: StableJournalLimits) -> Result<Seq<u8>, StableJournalError> {
    let bytes = head_field(record_magic(), record_tag(record)) + record_fields(record);
    match writable(record, limits) {
        Err(e) => Err(e),
        Ok(_) => if bytes.len() > limits.max_payload_bytes {
            Err(StableJournalError::LimitExceeded("stable record payload"))
        } else {
            Ok(bytes)
        },
    }
}

} // verus!
