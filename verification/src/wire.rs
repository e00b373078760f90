//! Writing keys and records, reading them back, and checking what a migration carries.

use vstd::prelude::*;

use crate::bytemap::ByteMap;
use crate::bytes::{byte_order, ByteOrder};
use crate::check::{is_all_zero, open_checked, record_checked, validate_key_record, validate_open_record};
use crate::codec::{
    be32, be64, behind, get_bytes, get_flag, get_i64, get_opaque, get_u32, get_u64, get_u8, lemma_join,
    lemma_u32_shrinks, object_field, opaque_field, option_object_field, start, BinaryDecoder, BinaryEncoder, Cursor,
    ExportId, Read,
};
use crate::error::StableJournalError;
use crate::layout::{
    boot_fields, capsule_fields, capsule_identity_fields, capsule_origin_fields, check_transfer, checked,
    checked_within, client_fields, contribution_fields, contributions_fields, delegation_fields, encode_key,
    encode_record, get_boot, get_capsule, get_capsule_head, get_client, get_contribution, get_contribution_set,
    get_contributions, get_delegation, get_handle_key, get_head, get_key, get_lock, get_open, get_origin, get_plain,
    get_range, get_range_set, get_ranges, get_renewal, get_replay, get_revocation, get_stable, get_transferred,
    handle_key_fields, head_field, key_fields, key_magic, lemma_checked_within, lock_fields, open_fields, parse_key,
    parse_record, range_fields, range_limit, ranges_fields, record_fields, record_magic, renewal_fields, replay_fields,
    revocation_fields, stable_fields, stables_fields, stables_writable, with_records, writable, OriginView,
    ENCODED_LOCK_RANGE_BYTES, ENCODED_OPEN_CONTRIBUTION_BYTES, MIN_ENCODED_STABLE_RECORD_BYTES,
};
use crate::limits::StableJournalLimits;
use crate::record::{
    key_tag, kind_of_code, owner_kind_code, record_views, stable_kind_code, stable_kind_from_code, BootRecord, CapsuleView,
    ClientRecord, DelegationRecord, HandleKeyRecord, JournalKey, JournalRecord, KeyView, LockRangeRecord, LockRecord,
    MigrationCapsuleRecord, MigrationPhase, OpenContributionRecord, OpenRecord, RecordView, ReplayOwnerKind,
    ReplayRecord, ReplayRenewalSource, RevocationReason, RevocationRecord, SchemaRecord, ServerIdentityRecord,
    StableKey, StableKeyView, StableRecord, StableRecordKind, StableRecordView, MAX_DELEGATION_OBJECT_ID_BYTES,
    MAX_OPEN_CONTRIBUTION_VARIANTS, SCHEMA_VERSION, TAG_BOOT, TAG_CLIENT, TAG_DELEGATION, TAG_HANDLE_KEY, TAG_LOCK,
    TAG_MIGRATION, TAG_OPEN, TAG_REPLAY, TAG_REVOCATION, TAG_SCHEMA, TAG_SERVER_IDENTITY,
};
use crate::transfer::{
    canonical_order, capsule_valid, legacy_record_is_suppressed, retained, retained_stable, sanitize_transfer,
    snapshot_checked, suppression, suppression_of, transfer_typed, typed_views, validate_migration_image, SnapshotView,
    Transfer, TypedView,
};

verus! {

/// `result` stands for `expected`: the same value, or the same error.
pub open spec fn same_key(result: Result<JournalKey, StableJournalError>, expected: Result<KeyView, StableJournalError>) -> bool {
    match result {
        Ok(key) => expected == Ok::<KeyView, StableJournalError>(key@),
        Err(e) => expected == Err::<KeyView, StableJournalError>(e),
    }
}

/// `result` stands for `expected`: the same value, or the same error.
pub open spec fn same_record(
    result: Result<JournalRecord, StableJournalError>,
    expected: Result<RecordView, StableJournalError>,
) -> bool {
    match result {
        Ok(record) => expected == Ok::<RecordView, StableJournalError>(record@),
        Err(e) => expected == Err::<RecordView, StableJournalError>(e),
    }
}

/// The value that was read stands for `expected`, with the reader moved behind it; or the same error.
spec fn read_as<T: View>(result: Result<T, StableJournalError>, after: Cursor, expected: Read<T::V>) -> bool {
    match result {
        Ok(value) => expected == Ok::<(T::V, Cursor), StableJournalError>((value@, after)),
        Err(e) => expected == Err::<(T::V, Cursor), StableJournalError>(e),
    }
}

impl JournalKey {
    /// The storage key of this key.
    pub fn encode(&self, limits: StableJournalLimits) -> (encoded: Result<StableKey, StableJournalError>)
        ensures
            match encoded {
                Ok(key) => encode_key(self@, limits) == Ok::<StableKeyView, StableJournalError>(key@),
                Err(e) => encode_key(self@, limits) == Err::<StableKeyView, StableJournalError>(e),
            },
    {
        let mut encoder = BinaryEncoder::new();
        let magic: [u8; 4] = [78u8, 52u8, 75u8, 0u8];
        encoder.fixed(magic.as_slice());
        encoder.u32(SCHEMA_VERSION);
        encoder.u8(self.tag());
        assert(encoder@ =~= head_field(key_magic(), key_tag(self@)));
        let ghost head = encoder@;
        match self {
            JournalKey::Schema => {},
            JournalKey::ServerIdentity => {},
            JournalKey::Boot => {},
            JournalKey::HandleKey => {},
            JournalKey::Client { client_id } => {
                encoder.u64(*client_id);
            },
            JournalKey::Open { state_token } => {
                encoder.fixed(state_token.as_slice());
            },
            JournalKey::Lock { state_token } => {
                encoder.fixed(state_token.as_slice());
            },
            JournalKey::Delegation { state_token } => {
                encoder.fixed(state_token.as_slice());
            },
            JournalKey::Revocation { state_token } => {
                encoder.fixed(state_token.as_slice());
            },
            JournalKey::Replay { client_id, owner_kind, owner } => {
                encoder.u64(*client_id);
                encoder.u8(owner_kind.code());
                encoder.opaque(owner.as_slice(), limits.max_key_bytes)?;
            },
            JournalKey::Migration { export_id, transfer_id } => {
                encoder.u32(export_id.0);
                encoder.fixed(transfer_id.as_slice());
            },
        }
        assert(encoder@ =~= head + key_fields(self@));
        let key = encoder.finish();
        if key.len() > limits.max_key_bytes {
            return Err(StableJournalError::LimitExceeded("stable record key"));
        }
        Ok(StableKey { kind: self.storage_kind(), key })
    }

    /// The key that a storage key stands for.
    pub fn decode(key: &StableKey, limits: StableJournalLimits) -> (decoded: Result<Self, StableJournalError>)
        ensures
            same_key(decoded, parse_key(key@, limits)),
    {
        proof {
            reveal(parse_key);
            reveal(get_key);
        }
        if key.key.len() > limits.max_key_bytes {
            return Err(StableJournalError::LimitExceeded("stable record key"));
        }
        let mut decoder = BinaryDecoder::new(key.key.as_slice());
        let magic: [u8; 4] = [78u8, 52u8, 75u8, 0u8];
        assert(magic@ =~= key_magic());
        let tag: u8 = decode_head(&mut decoder, &magic)?;
        let decoded: JournalKey = match tag {
            TAG_SCHEMA => JournalKey::Schema,
            TAG_SERVER_IDENTITY => JournalKey::ServerIdentity,
            TAG_BOOT => JournalKey::Boot,
            TAG_HANDLE_KEY => JournalKey::HandleKey,
            TAG_CLIENT => JournalKey::Client { client_id: decoder.u64()? },
            TAG_OPEN => JournalKey::Open { state_token: decoder.fixed()? },
            TAG_LOCK => JournalKey::Lock { state_token: decoder.fixed()? },
            TAG_DELEGATION => JournalKey::Delegation { state_token: decoder.fixed()? },
            TAG_REVOCATION => JournalKey::Revocation { state_token: decoder.fixed()? },
            TAG_REPLAY => {
                let client_id: u64 = decoder.u64()?;
                let code: u8 = decoder.u8()?;
                let owner_kind = ReplayOwnerKind::from_code(code)?;
                let owner = decoder.opaque(limits.max_key_bytes)?;
                JournalKey::Replay { client_id, owner_kind, owner }
            },
            TAG_MIGRATION => {
                let export: u32 = decoder.u32()?;
                let transfer_id: [u8; 16] = decoder.fixed()?;
                JournalKey::Migration { export_id: ExportId(export), transfer_id }
            },
            tag => {
                return Err(StableJournalError::UnknownRecordTag(tag));
            },
        };
        decoder.finish()?;
        if key.kind != decoded.storage_kind() {
            return Err(StableJournalError::Corrupt("stable record kind does not match its typed key"));
        }
        Ok(decoded)
    }
}

/// Reads the mark, the schema version and the tag.
fn decode_head(decoder: &mut BinaryDecoder<'_>, magic: &[u8; 4]) -> (tag: Result<u8, StableJournalError>)
    ensures
        crate::codec::reads(old(decoder).cursor(), final(decoder).cursor(), get_head(old(decoder).cursor(), magic@), tag),
{
    proof {
        reveal(get_head);
    }
    decoder.expect_fixed(magic)?;
    let version: u32 = decoder.u32()?;
    if version != SCHEMA_VERSION {
        return Err(StableJournalError::UnsupportedSchema(version));
    }
    decoder.u8()
}

/// Appends a boot record.
pub fn encode_boot(encoder: &mut BinaryEncoder, boot: BootRecord)
    ensures
        final(encoder)@ == old(encoder)@ + boot_fields(boot@),
{
    encoder.fixed(boot.verifier.as_slice());
    encoder.u32(boot.boot_tag);
    encoder.i64(boot.started_at_unix_seconds);
    encoder.boolean(boot.clean_shutdown);
    assert(encoder@ =~= old(encoder)@ + boot_fields(boot@));
}

/// Where a reader stands once it could not read a boot record: behind the parts that it could read.
pub open spec fn boot_stop(c: Cursor) -> Cursor {
    match get_bytes(c, 8) {
        Err(_) => c,
        Ok((_, c1)) => match get_u32(c1) {
            Err(_) => c1,
            Ok((_, c2)) => match get_i64(c2) {
                Err(_) => c2,
                Ok((_, c3)) => behind(c3, get_u8(c3)),
            },
        },
    }
}

/// Reads a boot record.
pub fn decode_boot(decoder: &mut BinaryDecoder<'_>) -> (boot: Result<BootRecord, StableJournalError>)
    ensures
        match boot {
            Ok(r) => get_boot(old(decoder).cursor()) == Ok::<(crate::record::BootView, Cursor), StableJournalError>(
                (r@, final(decoder).cursor()),
            ),
            Err(e) => get_boot(old(decoder).cursor()) == Err::<(crate::record::BootView, Cursor), StableJournalError>(e),
        },
        boot is Err ==> final(decoder).cursor() == boot_stop(old(decoder).cursor()),
{
    proof {
        reveal(get_boot);
    }
    let verifier: [u8; 8] = decoder.fixed()?;
    let boot_tag: u32 = decoder.u32()?;
    let started_at_unix_seconds: i64 = decoder.i64()?;
    let clean_shutdown: bool = decoder.boolean()?;
    Ok(BootRecord { verifier, boot_tag, started_at_unix_seconds, clean_shutdown })
}

fn encode_handle_key(encoder: &mut BinaryEncoder, r: HandleKeyRecord)
    ensures
        final(encoder)@ == old(encoder)@ + handle_key_fields(r@),
{
    encoder.fixed(r.instance_id.as_slice());
    encoder.fixed(r.secret.as_slice());
    assert(encoder@ =~= old(encoder)@ + handle_key_fields(r@));
}

fn decode_handle_key(decoder: &mut BinaryDecoder<'_>) -> (value: Result<HandleKeyRecord, StableJournalError>)
    ensures
        read_as(value, final(decoder).cursor(), get_handle_key(old(decoder).cursor())),
{
    proof {
        reveal(get_handle_key);
    }
    let instance_id: [u8; 8] = decoder.fixed()?;
    let secret: [u8; 32] = decoder.fixed()?;
    Ok(HandleKeyRecord { instance_id, secret })
}

fn encode_client(encoder: &mut BinaryEncoder, r: &ClientRecord, limits: StableJournalLimits) -> (done: Result<
    (),
    StableJournalError,
>)
    ensures
        done == writable(RecordView::Client(r@), limits),
        done is Ok ==> final(encoder)@ == old(encoder)@ + client_fields(r@),
{
    encoder.u64(r.client_id);
    encoder.opaque(r.owner.as_slice(), limits.max_payload_bytes)?;
    encoder.fixed(r.verifier.as_slice());
    encoder.opaque(r.canonical_principal.as_slice(), limits.max_payload_bytes)?;
    encoder.boolean(r.confirmed);
    assert(encoder@ =~= old(encoder)@ + client_fields(r@));
    Ok(())
}

fn decode_client(decoder: &mut BinaryDecoder<'_>, limits: StableJournalLimits) -> (value: Result<
    ClientRecord,
    StableJournalError,
>)
    ensures
        read_as(value, final(decoder).cursor(), get_client(old(decoder).cursor(), limits)),
{
    proof {
        reveal(get_client);
    }
    let client_id: u64 = decoder.u64()?;
    let owner = decoder.opaque(limits.max_payload_bytes)?;
    let verifier: [u8; 8] = decoder.fixed()?;
    let canonical_principal = decoder.opaque(limits.max_payload_bytes)?;
    let confirmed: bool = decoder.boolean()?;
    Ok(ClientRecord { client_id, owner, verifier, canonical_principal, confirmed })
}

fn encode_contributions(encoder: &mut BinaryEncoder, contributions: &Vec<OpenContributionRecord>)
    ensures
        final(encoder)@ == old(encoder)@ + contributions_fields(contributions@, contributions@.len()),
{
    let ghost begin = encoder@;
    assert(begin =~= begin + contributions_fields(contributions@, 0));
    let mut i: usize = 0;
    while i < contributions.len()
        invariant
            i <= contributions.len(),
            encoder@ == begin + contributions_fields(contributions@, i as nat),
        decreases contributions.len() - i,
    {
        let ghost before = encoder@;
        let one = contributions[i];
        encoder.u32(one.share_access);
        encoder.u32(one.share_deny);
        encoder.u32(one.count);
        proof {
            assert(encoder@ =~= before + contribution_fields(one));
            lemma_join(begin, contributions_fields(contributions@, i as nat), contribution_fields(one));
        }
        i += 1;
    }
}

fn encode_open(encoder: &mut BinaryEncoder, r: &OpenRecord, limits: StableJournalLimits) -> (done: Result<
    (),
    StableJournalError,
>)
    ensures
        done == writable(RecordView::Open(r@), limits),
        done is Ok ==> final(encoder)@ == old(encoder)@ + open_fields(r@),
{
    validate_open_record(r)?;
    let ghost s0 = encoder@;
    encoder.fixed(r.state_token.as_slice());
    let ghost s1 = encoder@;
    encoder.u64(r.client_id);
    let ghost s2 = encoder@;
    encoder.opaque(r.owner.as_slice(), limits.max_payload_bytes)?;
    let ghost s3 = encoder@;
    encoder.object(r.object);
    let ghost s4 = encoder@;
    encoder.u32(r.share_access);
    let ghost s5 = encoder@;
    encoder.u32(r.share_deny);
    let ghost s6 = encoder@;
    assert(r.contributions.len() <= MAX_OPEN_CONTRIBUTION_VARIANTS) by {
        reveal(open_checked);
    }
    encoder.u32(r.contributions.len() as u32);
    let ghost s7 = encoder@;
    encode_contributions(encoder, &r.contributions);
    proof {
        let v = r@;
        let t7 = contributions_fields(v.contributions, v.contributions.len());
        lemma_join(s6, be32(v.contributions.len() as u32), t7);
        let t6 = be32(v.contributions.len() as u32) + t7;
        lemma_join(s5, be32(v.share_deny), t6);
        let t5 = be32(v.share_deny) + t6;
        lemma_join(s4, be32(v.share_access), t5);
        let t4 = be32(v.share_access) + t5;
        lemma_join(s3, object_field(v.object), t4);
        let t3 = object_field(v.object) + t4;
        lemma_join(s2, opaque_field(v.owner), t3);
        let t2 = opaque_field(v.owner) + t3;
        lemma_join(s1, be64(v.client_id), t2);
        lemma_join(s0, v.state_token, be64(v.client_id) + t2);
    }
    Ok(())
}

/// A fault among the first contributions is a fault of them all.
proof fn lemma_contributions_fault(c: Cursor, n: nat, m: nat)
    requires
        n <= m,
        get_contributions(c, n) is Err,
    ensures
        get_contributions(c, m) == get_contributions(c, n),
    decreases m - n,
{
    if n < m {
        lemma_contributions_fault(c, n, (m - 1) as nat);
    }
}

fn decode_contribution(decoder: &mut BinaryDecoder<'_>) -> (value: Result<OpenContributionRecord, StableJournalError>)
    ensures
        crate::codec::reads(
            old(decoder).cursor(),
            final(decoder).cursor(),
            get_contribution(old(decoder).cursor()),
            value,
        ),
{
    let share_access: u32 = decoder.u32()?;
    let share_deny: u32 = decoder.u32()?;
    let count: u32 = decoder.u32()?;
    Ok(OpenContributionRecord { share_access, share_deny, count })
}

fn decode_contribution_set(decoder: &mut BinaryDecoder<'_>) -> (value: Result<
    Vec<OpenContributionRecord>,
    StableJournalError,
>)
    ensures
        read_as(value, final(decoder).cursor(), get_contribution_set(old(decoder).cursor())),
{
    proof {
        reveal(get_contribution_set);
    }
    let count: usize = decoder.u32()? as usize;
    if count == 0 || count > MAX_OPEN_CONTRIBUTION_VARIANTS {
        return Err(StableJournalError::LimitExceeded("stable OPEN contribution variants"));
    }
    if count > decoder.remaining() / ENCODED_OPEN_CONTRIBUTION_BYTES {
        return Err(StableJournalError::Corrupt("truncated stable OPEN contributions"));
    }
    let ghost begin = decoder.cursor();
    let ghost expected = get_contribution_set(old(decoder).cursor());
    let mut contributions: Vec<OpenContributionRecord> = Vec::new();
    let mut i: usize = 0;
    while i < count
        invariant
            i <= count,
            expected == get_contribution_set(old(decoder).cursor()),
            expected == get_contributions(begin, count as nat),
            get_contributions(begin, i as nat) == Ok::<(Seq<OpenContributionRecord>, Cursor), StableJournalError>(
                (contributions@, decoder.cursor()),
            ),
        decreases count - i,
    {
        let ghost done = contributions@;
        match decode_contribution(decoder) {
            Ok(one) => {
                contributions.push(one);
                assert(contributions@ =~= done.push(one));
            },
            Err(e) => {
                proof {
                    lemma_contributions_fault(begin, (i + 1) as nat, count as nat);
                }
                return Err(e);
            },
        }
        i += 1;
    }
    Ok(contributions)
}

fn decode_open(decoder: &mut BinaryDecoder<'_>, limits: StableJournalLimits) -> (value: Result<
    OpenRecord,
    StableJournalError,
>)
    ensures
        read_as(value, final(decoder).cursor(), get_open(old(decoder).cursor(), limits)),
{
    proof {
        reveal(get_open);
    }
    let state_token: [u8; 16] = decoder.fixed()?;
    let client_id: u64 = decoder.u64()?;
    let owner = decoder.opaque(limits.max_payload_bytes)?;
    let object = decoder.object()?;
    let share_access: u32 = decoder.u32()?;
    let share_deny: u32 = decoder.u32()?;
    let contributions = decode_contribution_set(decoder)?;
    let record = OpenRecord { state_token, client_id, owner, object, share_access, share_deny, contributions };
    validate_open_record(&record)?;
    Ok(record)
}

/// The most ranges that a payload has room for.
pub fn stable_lock_range_limit(limits: StableJournalLimits) -> (limit: usize)
    ensures
        limit == range_limit(limits),
{
    limits.max_payload_bytes / ENCODED_LOCK_RANGE_BYTES
}

fn encode_ranges(encoder: &mut BinaryEncoder, ranges: &Vec<LockRangeRecord>)
    ensures
        final(encoder)@ == old(encoder)@ + ranges_fields(ranges@, ranges@.len()),
{
    let ghost begin = encoder@;
    assert(begin =~= begin + ranges_fields(ranges@, 0));
    let mut i: usize = 0;
    while i < ranges.len()
        invariant
            i <= ranges.len(),
            encoder@ == begin + ranges_fields(ranges@, i as nat),
        decreases ranges.len() - i,
    {
        let ghost before = encoder@;
        let one = ranges[i];
        encoder.u64(one.offset);
        encoder.u64(one.length);
        encoder.boolean(one.write);
        proof {
            assert(encoder@ =~= before + range_fields(one));
            lemma_join(begin, ranges_fields(ranges@, i as nat), range_fields(one));
        }
        i += 1;
    }
}

fn encode_lock(encoder: &mut BinaryEncoder, r: &LockRecord, limits: StableJournalLimits) -> (done: Result<
    (),
    StableJournalError,
>)
    ensures
        done == writable(RecordView::Lock(r@), limits),
        done is Ok ==> final(encoder)@ == old(encoder)@ + lock_fields(r@),
{
    let ghost s0 = encoder@;
    encoder.fixed(r.state_token.as_slice());
    let ghost s1 = encoder@;
    encoder.fixed(r.open_state_token.as_slice());
    let ghost s2 = encoder@;
    encoder.u64(r.client_id);
    let ghost s3 = encoder@;
    encoder.opaque(r.owner.as_slice(), limits.max_payload_bytes)?;
    let ghost s4 = encoder@;
    encoder.object(r.object);
    let ghost s5 = encoder@;
    if r.ranges.len() > stable_lock_range_limit(limits) || r.ranges.len() > u32::MAX as usize {
        return Err(StableJournalError::LimitExceeded("stable lock range count"));
    }
    encoder.u32(r.ranges.len() as u32);
    encode_ranges(encoder, &r.ranges);
    proof {
        let v = r@;
        let t6 = ranges_fields(v.ranges, v.ranges.len());
        lemma_join(s5, be32(v.ranges.len() as u32), t6);
        let t5 = be32(v.ranges.len() as u32) + t6;
        lemma_join(s4, object_field(v.object), t5);
        let t4 = object_field(v.object) + t5;
        lemma_join(s3, opaque_field(v.owner), t4);
        let t3 = opaque_field(v.owner) + t4;
        lemma_join(s2, be64(v.client_id), t3);
        let t2 = be64(v.client_id) + t3;
        lemma_join(s1, v.open_state_token, t2);
        lemma_join(s0, v.state_token, v.open_state_token + t2);
    }
    Ok(())
}

/// A fault among the first ranges is a fault of them all.
proof fn lemma_ranges_fault(c: Cursor, n: nat, m: nat)
    requires
        n <= m,
        get_ranges(c, n) is Err,
    ensures
        get_ranges(c, m) == get_ranges(c, n),
    decreases m - n,
{
    if n < m {
        lemma_ranges_fault(c, n, (m - 1) as nat);
    }
}

fn decode_range(decoder: &mut BinaryDecoder<'_>) -> (value: Result<LockRangeRecord, StableJournalError>)
    ensures
        crate::codec::reads(old(decoder).cursor(), final(decoder).cursor(), get_range(old(decoder).cursor()), value),
{
    let offset: u64 = decoder.u64()?;
    let length: u64 = decoder.u64()?;
    let write: bool = decoder.boolean()?;
    Ok(LockRangeRecord { offset, length, write })
}

fn decode_range_set(decoder: &mut BinaryDecoder<'_>, limits: StableJournalLimits) -> (value: Result<
    Vec<LockRangeRecord>,
    StableJournalError,
>)
    ensures
        read_as(value, final(decoder).cursor(), get_range_set(old(decoder).cursor(), limits)),
{
    proof {
        reveal(get_range_set);
    }
    let count: usize = decoder.u32()? as usize;
    if count > stable_lock_range_limit(limits) {
        return Err(StableJournalError::LimitExceeded("stable lock range count"));
    }
    if count > decoder.remaining() / ENCODED_LOCK_RANGE_BYTES {
        return Err(StableJournalError::Corrupt("truncated stable lock range set"));
    }
    let ghost begin = decoder.cursor();
    let ghost expected = get_range_set(old(decoder).cursor(), limits);
    let mut ranges: Vec<LockRangeRecord> = Vec::new();
    let mut i: usize = 0;
    while i < count
        invariant
            i <= count,
            expected == get_range_set(old(decoder).cursor(), limits),
            expected == get_ranges(begin, count as nat),
            get_ranges(begin, i as nat) == Ok::<(Seq<LockRangeRecord>, Cursor), StableJournalError>(
                (ranges@, decoder.cursor()),
            ),
        decreases count - i,
    {
        let ghost done = ranges@;
        match decode_range(decoder) {
            Ok(one) => {
                ranges.push(one);
                assert(ranges@ =~= done.push(one));
            },
            Err(e) => {
                proof {
                    lemma_ranges_fault(begin, (i + 1) as nat, count as nat);
                }
                return Err(e);
            },
        }
        i += 1;
    }
    Ok(ranges)
}

fn decode_lock(decoder: &mut BinaryDecoder<'_>, limits: StableJournalLimits) -> (value: Result<
    LockRecord,
    StableJournalError,
>)
    ensures
        read_as(value, final(decoder).cursor(), get_lock(old(decoder).cursor(), limits)),
{
    proof {
        reveal(get_lock);
    }
    let state_token: [u8; 16] = decoder.fixed()?;
    let open_state_token: [u8; 16] = decoder.fixed()?;
    let client_id: u64 = decoder.u64()?;
    let owner = decoder.opaque(limits.max_payload_bytes)?;
    let object = decoder.object()?;
    let ranges = decode_range_set(decoder, limits)?;
    Ok(LockRecord { state_token, open_state_token, client_id, owner, object, ranges })
}

fn encode_delegation(encoder: &mut BinaryEncoder, r: &DelegationRecord, limits: StableJournalLimits) -> (done: Result<
    (),
    StableJournalError,
>)
    ensures
        done == writable(RecordView::Delegation(r@), limits),
        done is Ok ==> final(encoder)@ == old(encoder)@ + delegation_fields(r@),
{
    encoder.fixed(r.state_token.as_slice());
    encoder.u64(r.client_id);
    encoder.object(r.object);
    encoder.boolean(r.write);
    encoder.u64(r.requested_space);
    encoder.opaque(r.persistent_object_id.as_slice(), MAX_DELEGATION_OBJECT_ID_BYTES)?;
    assert(encoder@ =~= old(encoder)@ + delegation_fields(r@));
    Ok(())
}

fn decode_delegation(decoder: &mut BinaryDecoder<'_>) -> (value: Result<DelegationRecord, StableJournalError>)
    ensures
        read_as(value, final(decoder).cursor(), get_delegation(old(decoder).cursor())),
{
    proof {
        reveal(get_delegation);
    }
    let state_token: [u8; 16] = decoder.fixed()?;
    let client_id: u64 = decoder.u64()?;
    let object = decoder.object()?;
    let write: bool = decoder.boolean()?;
    let requested_space: u64 = decoder.u64()?;
    let persistent_object_id = decoder.opaque(MAX_DELEGATION_OBJECT_ID_BYTES)?;
    Ok(DelegationRecord { state_token, client_id, object, write, requested_space, persistent_object_id })
}

fn encode_revocation(encoder: &mut BinaryEncoder, r: &RevocationRecord)
    ensures
        final(encoder)@ == old(encoder)@ + revocation_fields(r@),
{
    encoder.fixed(r.state_token.as_slice());
    encoder.u64(r.client_id);
    encoder.u8(r.reason.code());
    encoder.i64(r.revoked_at_unix_seconds);
    assert(encoder@ =~= old(encoder)@ + revocation_fields(r@));
}

fn decode_revocation(decoder: &mut BinaryDecoder<'_>) -> (value: Result<RevocationRecord, StableJournalError>)
    ensures
        read_as(value, final(decoder).cursor(), get_revocation(old(decoder).cursor())),
{
    proof {
        reveal(get_revocation);
    }
    let state_token: [u8; 16] = decoder.fixed()?;
    let client_id: u64 = decoder.u64()?;
    let code: u8 = decoder.u8()?;
    let reason = RevocationReason::from_code(code)?;
    let revoked_at_unix_seconds: i64 = decoder.i64()?;
    Ok(RevocationRecord { state_token, client_id, reason, revoked_at_unix_seconds })
}

impl ReplayRenewalSource {
    /// Appends this source.
    pub fn encode(self, encoder: &mut BinaryEncoder)
        ensures
            final(encoder)@ == old(encoder)@ + renewal_fields(self),
    {
        match self {
            ReplayRenewalSource::Unset => {
                encoder.u8(0);
            },
            ReplayRenewalSource::StateId { client_id } => {
                encoder.u8(1);
                encoder.u64(client_id);
            },
        }
        assert(encoder@ =~= old(encoder)@ + renewal_fields(self));
    }

    /// Reads a source.
    pub fn decode(decoder: &mut BinaryDecoder<'_>) -> (value: Result<Self, StableJournalError>)
        ensures
            crate::codec::reads(old(decoder).cursor(), final(decoder).cursor(), get_renewal(old(decoder).cursor()), value),
            value is Err ==> final(decoder).cursor() == behind(old(decoder).cursor(), get_u8(old(decoder).cursor())),
    {
        proof {
            reveal(get_renewal);
        }
        let code: u8 = decoder.u8()?;
        match code {
            0 => Ok(ReplayRenewalSource::Unset),
            1 => {
                let client_id: u64 = decoder.u64()?;
                Ok(ReplayRenewalSource::StateId { client_id })
            },
            _ => Err(StableJournalError::Corrupt("invalid replay renewal source")),
        }
    }
}

fn encode_replay_record(encoder: &mut BinaryEncoder, r: &ReplayRecord, limits: StableJournalLimits) -> (done: Result<
    (),
    StableJournalError,
>)
    ensures
        done == writable(RecordView::Replay(r@), limits),
        done is Ok ==> final(encoder)@ == old(encoder)@ + replay_fields(r@),
{
    let ghost s0 = encoder@;
    encoder.u64(r.client_id);
    let ghost s1 = encoder@;
    encoder.u8(r.owner_kind.code());
    let ghost s2 = encoder@;
    encoder.opaque(r.owner.as_slice(), limits.max_payload_bytes)?;
    let ghost s3 = encoder@;
    encoder.u32(r.sequence_id);
    let ghost s4 = encoder@;
    encoder.fixed(r.request_digest.as_slice());
    let ghost s5 = encoder@;
    encoder.opaque(r.reply.as_slice(), limits.max_payload_bytes)?;
    let ghost s6 = encoder@;
    encoder.option_object(r.current_object);
    r.renewal_source.encode(encoder);
    proof {
        let v = r@;
        let t7 = renewal_fields(v.renewal_source);
        lemma_join(s6, option_object_field(v.current_object), t7);
        let t6 = option_object_field(v.current_object) + t7;
        lemma_join(s5, opaque_field(v.reply), t6);
        let t5 = opaque_field(v.reply) + t6;
        lemma_join(s4, v.request_digest, t5);
        let t4 = v.request_digest + t5;
        lemma_join(s3, be32(v.sequence_id), t4);
        let t3 = be32(v.sequence_id) + t4;
        lemma_join(s2, opaque_field(v.owner), t3);
        let t2 = opaque_field(v.owner) + t3;
        lemma_join(s1, seq![owner_kind_code(v.owner_kind)], t2);
        lemma_join(s0, be64(v.client_id), seq![owner_kind_code(v.owner_kind)] + t2);
    }
    Ok(())
}

fn decode_replay_record(decoder: &mut BinaryDecoder<'_>, limits: StableJournalLimits) -> (value: Result<
    ReplayRecord,
    StableJournalError,
>)
    ensures
        read_as(value, final(decoder).cursor(), get_replay(old(decoder).cursor(), limits)),
{
    proof {
        reveal(get_replay);
    }
    let client_id: u64 = decoder.u64()?;
    let code: u8 = decoder.u8()?;
    let owner_kind = ReplayOwnerKind::from_code(code)?;
    let owner = decoder.opaque(limits.max_payload_bytes)?;
    let sequence_id: u32 = decoder.u32()?;
    let request_digest: [u8; 32] = decoder.fixed()?;
    let reply = decoder.opaque(limits.max_payload_bytes)?;
    let current_object = decoder.option_object()?;
    let renewal_source = ReplayRenewalSource::decode(decoder)?;
    Ok(
        ReplayRecord {
            client_id,
            owner_kind,
            owner,
            sequence_id,
            request_digest,
            reply,
            current_object,
            renewal_source,
        },
    )
}

/// Appends one stored record to a capsule.
pub fn encode_stable_record(encoder: &mut BinaryEncoder, record: &StableRecord, limits: StableJournalLimits) -> (done:
    Result<(), StableJournalError>)
    ensures
        match check_transfer(record@, limits) {
            Err(e) => done == Err::<(), StableJournalError>(e),
            Ok(_) => if !crate::layout::opaque_fits(record@.key.key, limits.max_key_bytes)
                || !crate::layout::opaque_fits(record@.payload, limits.max_payload_bytes) {
                done == Err::<(), StableJournalError>(StableJournalError::LimitExceeded("stable opaque field"))
            } else {
                done is Ok && final(encoder)@ == old(encoder)@ + stable_fields(record@)
            },
        },
{
    validate_transfer_record(record, limits)?;
    encoder.u8(stable_kind_code(record.key.kind));
    encoder.opaque(record.key.key.as_slice(), limits.max_key_bytes)?;
    encoder.opaque(record.payload.as_slice(), limits.max_payload_bytes)?;
    assert(encoder@ =~= old(encoder)@ + stable_fields(record@));
    Ok(())
}

/// A fault among the first records is a fault of them all.
proof fn lemma_stables_fault(records: Seq<StableRecordView>, limits: StableJournalLimits, n: nat, m: nat)
    requires
        n <= m,
        stables_writable(records, limits, n) is Err,
    ensures
        stables_writable(records, limits, m) == stables_writable(records, limits, n),
    decreases m - n,
{
    if n < m {
        lemma_stables_fault(records, limits, n, (m - 1) as nat);
    }
}

fn encode_stable_records(encoder: &mut BinaryEncoder, records: &Vec<StableRecord>, limits: StableJournalLimits) -> (done:
    Result<(), StableJournalError>)
    ensures
        done == stables_writable(record_views(records@), limits, records@.len()),
        done is Ok ==> final(encoder)@ == old(encoder)@ + stables_fields(record_views(records@), records@.len()),
{
    let ghost begin = encoder@;
    let ghost views = record_views(records@);
    assert(begin =~= begin + stables_fields(views, 0));
    let mut i: usize = 0;
    while i < records.len()
        invariant
            i <= records.len(),
            views == record_views(records@),
            encoder@ == begin + stables_fields(views, i as nat),
            stables_writable(views, limits, i as nat) is Ok,
        decreases records.len() - i,
    {
        assert(views[i as int] == records@[i as int]@);
        match encode_stable_record(encoder, &records[i], limits) {
            Ok(_) => {},
            Err(e) => {
                proof {
                    lemma_stables_fault(views, limits, (i + 1) as nat, views.len());
                }
                return Err(e);
            },
        }
        proof {
            lemma_join(begin, stables_fields(views, i as nat), stable_fields(views[i as int]));
        }
        i += 1;
    }
    Ok(())
}

fn encode_capsule(encoder: &mut BinaryEncoder, r: &MigrationCapsuleRecord, limits: StableJournalLimits) -> (done: Result<
    (),
    StableJournalError,
>)
    ensures
        done == writable(RecordView::Migration(r@), limits),
        done is Ok ==> final(encoder)@ == old(encoder)@ + capsule_fields(r@),
{
    encoder.fixed(r.transfer_id.as_slice());
    encoder.u32(r.export_id.0);
    encoder.u64(r.fsid_major);
    encoder.u64(r.fsid_minor);
    encoder.u64(r.source_generation);
    encoder.u64(r.coordinator_generation);
    assert(encoder@ =~= old(encoder)@ + capsule_origin_fields(r@));
    let ghost origin = encoder@;
    encoder.fixed(r.coordinator_token_digest.as_slice());
    encoder.fixed(r.bundle_digest.as_slice());
    encoder.fixed(r.server_identity.identity.as_slice());
    encode_boot(encoder, r.boot);
    encode_handle_key(encoder, r.handle_key);
    encoder.u8(r.phase.code());
    assert(encoder@ =~= origin + capsule_identity_fields(r@));
    let ghost identity = encoder@;
    if r.records.len() > u32::MAX as usize {
        return Err(StableJournalError::LimitExceeded("migration record count"));
    }
    encoder.u32(r.records.len() as u32);
    let ghost counted = encoder@;
    encode_stable_records(encoder, &r.records, limits)?;
    proof {
        let views = r@.records;
        let count = be32(views.len() as u32);
        let all = stables_fields(views, views.len());
        lemma_join(identity, count, all);
        lemma_join(origin, capsule_identity_fields(r@), count + all);
        lemma_join(old(encoder)@, capsule_origin_fields(r@), capsule_identity_fields(r@) + (count + all));
    }
    Ok(())
}

fn decode_origin(decoder: &mut BinaryDecoder<'_>) -> (value: Result<
    ([u8; 16], ExportId, u64, u64, u64, u64),
    StableJournalError,
>)
    ensures
        match value {
            Ok(t) => get_origin(old(decoder).cursor()) == Ok::<(OriginView, Cursor), StableJournalError>(
                (
                    OriginView {
                        transfer_id: t.0@,
                        export_id: t.1,
                        fsid_major: t.2,
                        fsid_minor: t.3,
                        source_generation: t.4,
                        coordinator_generation: t.5,
                    },
                    final(decoder).cursor(),
                ),
            ),
            Err(e) => get_origin(old(decoder).cursor()) == Err::<(OriginView, Cursor), StableJournalError>(e),
        },
{
    proof {
        reveal(get_origin);
    }
    let transfer_id: [u8; 16] = decoder.fixed()?;
    let export: u32 = decoder.u32()?;
    let fsid_major: u64 = decoder.u64()?;
    let fsid_minor: u64 = decoder.u64()?;
    let source_generation: u64 = decoder.u64()?;
    let coordinator_generation: u64 = decoder.u64()?;
    Ok((transfer_id, ExportId(export), fsid_major, fsid_minor, source_generation, coordinator_generation))
}

fn decode_capsule_head(decoder: &mut BinaryDecoder<'_>) -> (value: Result<MigrationCapsuleRecord, StableJournalError>)
    ensures
        read_as(value, final(decoder).cursor(), get_capsule_head(old(decoder).cursor())),
{
    proof {
        reveal(get_capsule_head);
    }
    let origin = decode_origin(decoder)?;
    let coordinator_token_digest: [u8; 32] = decoder.fixed()?;
    let bundle_digest: [u8; 32] = decoder.fixed()?;
    let identity: [u8; 16] = decoder.fixed()?;
    let boot = decode_boot(decoder)?;
    let handle_key = decode_handle_key(decoder)?;
    let code: u8 = decoder.u8()?;
    let phase = MigrationPhase::from_code(code)?;
    let head = MigrationCapsuleRecord {
        transfer_id: origin.0,
        export_id: origin.1,
        fsid_major: origin.2,
        fsid_minor: origin.3,
        source_generation: origin.4,
        coordinator_generation: origin.5,
        coordinator_token_digest,
        bundle_digest,
        server_identity: ServerIdentityRecord { identity },
        boot,
        handle_key,
        phase,
        records: Vec::new(),
    };
    assert(head@.records =~= Seq::<StableRecordView>::empty());
    Ok(head)
}

/// What reading a stored record leaves: a payload shorter than what was there, and less than before.
proof fn lemma_get_stable(c: Cursor, limits: StableJournalLimits)
    ensures
        match get_stable(c, limits) {
            Ok((one, next)) => one.payload.len() < c.rest.len() && next.rest.len() < c.rest.len(),
            Err(_) => true,
        },
{
    reveal(get_u8);
    reveal(get_opaque);
    reveal(get_bytes);
    reveal(get_u32);
    reveal(get_stable);
}

/// Where a reader stands once it could not read a stored record: behind the parts that it could read.
pub open spec fn stable_stop(c: Cursor, limits: StableJournalLimits) -> Cursor {
    match get_u8(c) {
        Err(_) => c,
        Ok((code, c1)) => match kind_of_code(code) {
            Err(_) => c1,
            Ok(_) => match get_opaque(c1, limits.max_key_bytes as nat) {
                Err(_) => behind(c1, get_u32(c1)),
                Ok((_, c2)) => behind(c2, get_u32(c2)),
            },
        },
    }
}

/// Reads one stored record, without looking into it.
fn decode_raw_record(decoder: &mut BinaryDecoder<'_>, limits: StableJournalLimits) -> (value: Result<
    StableRecord,
    StableJournalError,
>)
    ensures
        read_as(value, final(decoder).cursor(), get_stable(old(decoder).cursor(), limits)),
        value is Err ==> final(decoder).cursor() == stable_stop(old(decoder).cursor(), limits),
{
    proof {
        reveal(get_stable);
    }
    let code: u8 = decoder.u8()?;
    let kind = stable_kind_from_code(code)?;
    let key = decoder.opaque(limits.max_key_bytes)?;
    let payload = decoder.opaque(limits.max_payload_bytes)?;
    Ok(StableRecord { key: StableKey { kind, key }, payload })
}

/// Reads one stored record of a capsule; it must be transferable.
pub fn decode_stable_record(decoder: &mut BinaryDecoder<'_>, limits: StableJournalLimits) -> (value: Result<
    StableRecord,
    StableJournalError,
>)
    ensures
        match get_stable(old(decoder).cursor(), limits) {
            Err(e) => value == Err::<StableRecord, StableJournalError>(e) && final(decoder).cursor() == stable_stop(
                old(decoder).cursor(),
                limits,
            ),
            Ok((one, next)) => match check_transfer(one, limits) {
                Err(e) => value == Err::<StableRecord, StableJournalError>(e) && final(decoder).cursor() == next,
                Ok(_) => value is Ok && value->Ok_0@ == one && final(decoder).cursor() == next,
            },
        },
    decreases old(decoder).cursor().rest.len(), 4nat,
{
    proof {
        lemma_get_stable(decoder.cursor(), limits);
    }
    let record = decode_raw_record(decoder, limits)?;
    validate_transfer_record(&record, limits)?;
    Ok(record)
}

/// A fault among the first records is a fault of them all.
proof fn lemma_transferred_fault(c: Cursor, n: nat, m: nat, limits: StableJournalLimits, bound: nat)
    requires
        n <= m,
        get_transferred(c, n, limits, bound) is Err,
    ensures
        get_transferred(c, m, limits, bound) == get_transferred(c, n, limits, bound),
    decreases m - n,
{
    if n < m {
        lemma_transferred_fault(c, n, (m - 1) as nat, limits, bound);
    }
}

/// Reads a migration capsule. The reader stands inside a payload of `bound` bytes.
fn decode_capsule(decoder: &mut BinaryDecoder<'_>, limits: StableJournalLimits, bound: Ghost<nat>) -> (value: Result<
    JournalRecord,
    StableJournalError,
>)
    requires
        old(decoder).cursor().rest.len() <= bound@,
    ensures
        read_as(value, final(decoder).cursor(), get_capsule(old(decoder).cursor(), limits, bound@)),
    decreases bound@, 5nat,
{
    let ghost expected = get_capsule(decoder.cursor(), limits, bound@);
    proof {
        lemma_head_shrinks(decoder.cursor());
    }
    let mut capsule = decode_capsule_head(decoder)?;
    let ghost head = capsule@;
    proof {
        lemma_u32_shrinks(decoder.cursor());
    }
    let count: usize = decoder.u32()? as usize;
    if count > decoder.remaining() / MIN_ENCODED_STABLE_RECORD_BYTES {
        return Err(StableJournalError::Corrupt("truncated migration record set"));
    }
    let ghost begin = decoder.cursor();
    let mut records: Vec<StableRecord> = Vec::new();
    proof {
        assert(record_views(records@) =~= Seq::<StableRecordView>::empty());
    }
    let mut i: usize = 0;
    while i < count
        invariant
            i <= count,
            expected == get_capsule(old(decoder).cursor(), limits, bound@),
            begin.rest.len() <= bound@,
            decoder.cursor().rest.len() <= begin.rest.len(),
            expected == match get_transferred(begin, count as nat, limits, bound@) {
                Err(e) => Err(e),
                Ok((all, last)) => match sanitize_transfer(all, checked_within(all, limits, bound@), limits) {
                    Err(e) => Err(e),
                    Ok((stable, _)) => match capsule_valid(
                        with_records(head, stable),
                        checked_within(stable, limits, bound@),
                        limits,
                    ) {
                        Err(e) => Err(e),
                        Ok(_) => Ok((RecordView::Migration(with_records(head, stable)), last)),
                    },
                },
            },
            get_transferred(begin, i as nat, limits, bound@) == Ok::<(Seq<StableRecordView>, Cursor), StableJournalError>(
                (record_views(records@), decoder.cursor()),
            ),
            forall|j: int| 0 <= j < records@.len() ==> (#[trigger] records@[j]).payload@.len() < bound@,
        decreases count - i,
    {
        let ghost done = records@;
        proof {
            lemma_get_stable(decoder.cursor(), limits);
        }
        match decode_stable_record(decoder, limits) {
            Ok(one) => {
                records.push(one);
                assert(record_views(records@) =~= record_views(done).push(one@));
            },
            Err(e) => {
                proof {
                    lemma_transferred_fault(begin, (i + 1) as nat, count as nat, limits, bound@);
                }
                return Err(e);
            },
        }
        i += 1;
    }
    proof {
        assert forall|j: int| 0 <= j < record_views(records@).len() implies (#[trigger] record_views(
            records@,
        )[j]).payload.len() < bound@ by {
            assert(records@[j].payload@.len() < bound@);
        }
        lemma_checked_within(record_views(records@), limits, bound@);
    }
    let sanitized = sanitize_within(&records, limits, Ghost(bound@))?;
    capsule.records = sanitized.stable;
    proof {
        let stable = capsule@.records;
        reveal(sanitize_transfer);
        lemma_retained_payloads(
            record_views(records@),
            transfer_typed(record_views(records@), checked(record_views(records@), limits), records@.len())->Ok_0,
            records@.len(),
            bound@,
        );
        lemma_checked_within(stable, limits, bound@);
        assert(capsule@ =~= with_records(head, stable));
        assert forall|j: int| 0 <= j < capsule.records@.len() implies (#[trigger] capsule.records@[j]).payload@.len()
            < bound@ by {
            assert(stable[j].payload.len() < bound@);
        }
    }
    validate_capsule_within(&capsule, limits, Ghost(bound@))?;
    Ok(JournalRecord::Migration(capsule))
}

/// Reading the head of a record leaves no more than there was.
proof fn lemma_record_head_shrinks(bytes: Seq<u8>)
    ensures
        match get_head(start(bytes), record_magic()) {
            Ok((_, next)) => next.rest.len() <= bytes.len(),
            Err(_) => true,
        },
{
    reveal(get_u8);
    reveal(get_bytes);
    reveal(get_u32);
    reveal(get_head);
}

/// Reading up to a capsule's records leaves less than there was.
proof fn lemma_head_shrinks(c: Cursor)
    ensures
        match get_capsule_head(c) {
            Ok((_, next)) => next.rest.len() <= c.rest.len(),
            Err(_) => true,
        },
{
    reveal(get_u8);
    reveal(get_bytes);
    reveal(get_u32);
    reveal(get_u64);
    reveal(get_i64);
    reveal(get_flag);
    reveal(get_capsule_head);
    reveal(get_origin);
    reveal(get_boot);
    reveal(get_handle_key);
}

/// What stays of a transfer is among what was there.
proof fn lemma_retained_payloads(records: Seq<StableRecordView>, all: Seq<TypedView>, n: nat, bound: nat)
    requires
        n <= records.len(),
        forall|i: int| 0 <= i < records.len() ==> (#[trigger] records[i]).payload.len() < bound,
    ensures
        forall|i: int|
            0 <= i < retained_stable(records, all, n).len() ==> (#[trigger] retained_stable(records, all, n)[i]).payload.len()
                < bound,
    decreases n,
{
    if n > 0 {
        lemma_retained_payloads(records, all, (n - 1) as nat, bound);
    }
}

impl JournalRecord {
    /// The payload of this record.
    pub fn encode(&self, limits: StableJournalLimits) -> (encoded: Result<Vec<u8>, StableJournalError>)
        ensures
            match encoded {
                Ok(payload) => encode_record(self@, limits) == Ok::<Seq<u8>, StableJournalError>(payload@),
                Err(e) => encode_record(self@, limits) == Err::<Seq<u8>, StableJournalError>(e),
            },
    {
        let mut encoder = BinaryEncoder::new();
        let magic: [u8; 4] = [78u8, 52u8, 82u8, 0u8];
        encoder.fixed(magic.as_slice());
        encoder.u32(SCHEMA_VERSION);
        encoder.u8(self.tag());
        assert(encoder@ =~= head_field(record_magic(), crate::record::record_tag(self@)));
        let ghost head = encoder@;
        match self {
            JournalRecord::Schema(r) => {
                encoder.u32(r.version);
            },
            JournalRecord::ServerIdentity(r) => {
                encoder.fixed(r.identity.as_slice());
            },
            JournalRecord::Boot(r) => {
                encode_boot(&mut encoder, *r);
            },
            JournalRecord::HandleKey(r) => {
                encode_handle_key(&mut encoder, *r);
            },
            JournalRecord::Client(r) => {
                encode_client(&mut encoder, r, limits)?;
            },
            JournalRecord::Open(r) => {
                encode_open(&mut encoder, r, limits)?;
            },
            JournalRecord::Lock(r) => {
                encode_lock(&mut encoder, r, limits)?;
            },
            JournalRecord::Delegation(r) => {
                encode_delegation(&mut encoder, r, limits)?;
            },
            JournalRecord::Revocation(r) => {
                encode_revocation(&mut encoder, r);
            },
            JournalRecord::Replay(r) => {
                encode_replay_record(&mut encoder, r, limits)?;
            },
            JournalRecord::Migration(r) => {
                encode_capsule(&mut encoder, r, limits)?;
            },
        }
        assert(encoder@ =~= head + record_fields(self@));
        let payload = encoder.finish();
        if payload.len() > limits.max_payload_bytes {
            return Err(StableJournalError::LimitExceeded("stable record payload"));
        }
        Ok(payload)
    }

    /// The record that a payload stands for.
    pub fn decode(payload: &[u8], limits: StableJournalLimits) -> (decoded: Result<Self, StableJournalError>)
        ensures
            same_record(decoded, parse_record(payload@, limits)),
        decreases payload@.len(), 6nat,
    {
        proof {
            reveal(get_plain);
            lemma_record_head_shrinks(payload@);
        }
        if payload.len() > limits.max_payload_bytes {
            return Err(StableJournalError::LimitExceeded("stable record payload"));
        }
        let mut decoder = BinaryDecoder::new(payload);
        let magic: [u8; 4] = [78u8, 52u8, 82u8, 0u8];
        assert(magic@ =~= record_magic());
        let tag: u8 = decode_head(&mut decoder, &magic)?;
        let record: JournalRecord = match tag {
            TAG_SCHEMA => JournalRecord::Schema(SchemaRecord { version: decoder.u32()? }),
            TAG_SERVER_IDENTITY => JournalRecord::ServerIdentity(ServerIdentityRecord { identity: decoder.fixed()? }),
            TAG_BOOT => JournalRecord::Boot(decode_boot(&mut decoder)?),
            TAG_HANDLE_KEY => JournalRecord::HandleKey(decode_handle_key(&mut decoder)?),
            TAG_CLIENT => JournalRecord::Client(decode_client(&mut decoder, limits)?),
            TAG_OPEN => JournalRecord::Open(decode_open(&mut decoder, limits)?),
            TAG_LOCK => JournalRecord::Lock(decode_lock(&mut decoder, limits)?),
            TAG_DELEGATION => JournalRecord::Delegation(decode_delegation(&mut decoder)?),
            TAG_REVOCATION => JournalRecord::Revocation(decode_revocation(&mut decoder)?),
            TAG_REPLAY => JournalRecord::Replay(decode_replay_record(&mut decoder, limits)?),
            TAG_MIGRATION => decode_capsule(&mut decoder, limits, Ghost(payload@.len()))?,
            tag => {
                return Err(StableJournalError::UnknownRecordTag(tag));
            },
        };
        decoder.finish()?;
        record.validate()?;
        Ok(record)
    }
}

/// The typed form of a stored record that may be transferred.
pub fn validate_transfer_record(record: &StableRecord, limits: StableJournalLimits) -> (typed: Result<
    (JournalKey, JournalRecord),
    StableJournalError,
>)
    ensures
        match typed {
            Ok(pair) => check_transfer(record@, limits) == Ok::<TypedView, StableJournalError>((pair.0@, pair.1@)),
            Err(e) => check_transfer(record@, limits) == Err::<TypedView, StableJournalError>(e),
        },
    decreases record.payload@.len(), 7nat,
{
    if record.key.kind == StableRecordKind::Migration {
        return Err(StableJournalError::Corrupt("nested migration record"));
    }
    let key = JournalKey::decode(&record.key, limits)?;
    if key.is_reserved() {
        return Err(StableJournalError::Corrupt("reserved record in migration state"));
    }
    let typed = JournalRecord::decode(record.payload.as_slice(), limits)?;
    validate_key_record(&key, &typed)?;
    Ok((key, typed))
}

/// The records of a transfer that stay, stored and typed.
pub struct SanitizedTransferRecords {
    pub stable: Vec<StableRecord>,
    pub typed: Vec<(JournalKey, JournalRecord)>,
}

/// `result` stands for `expected`: the same records, or the same error.
pub open spec fn same_sanitized(
    result: Result<SanitizedTransferRecords, StableJournalError>,
    expected: Result<(Seq<StableRecordView>, Seq<TypedView>), StableJournalError>,
) -> bool {
    match result {
        Ok(s) => expected == Ok::<(Seq<StableRecordView>, Seq<TypedView>), StableJournalError>(
            (record_views(s.stable@), typed_views(s.typed@)),
        ),
        Err(e) => expected == Err::<(Seq<StableRecordView>, Seq<TypedView>), StableJournalError>(e),
    }
}

/// The typed forms of transferred records, all of whose payloads are shorter than `bound`.
fn typed_within(records: &Vec<StableRecord>, limits: StableJournalLimits, bound: Ghost<nat>) -> (typed: Result<
    Vec<(JournalKey, JournalRecord)>,
    StableJournalError,
>)
    requires
        forall|i: int| 0 <= i < records@.len() ==> (#[trigger] records@[i]).payload@.len() < bound@,
    ensures
        match typed {
            Ok(t) => transfer_typed(record_views(records@), checked(record_views(records@), limits), records@.len())
                == Ok::<Seq<TypedView>, StableJournalError>(typed_views(t@)),
            Err(e) => transfer_typed(record_views(records@), checked(record_views(records@), limits), records@.len())
                == Err::<Seq<TypedView>, StableJournalError>(e),
        },
    decreases bound@, 1nat,
{
    let ghost views = record_views(records@);
    let ghost results = checked(views, limits);
    let mut seen: ByteMap<()> = ByteMap::new();
    let mut typed: Vec<(JournalKey, JournalRecord)> = Vec::new();
    assert(typed_views(typed@) =~= Seq::<TypedView>::empty());
    let mut i: usize = 0;
    while i < records.len()
        invariant
            i <= records.len(),
            views == record_views(records@),
            results == checked(views, limits),
            forall|j: int| 0 <= j < records@.len() ==> (#[trigger] records@[j]).payload@.len() < bound@,
            forall|k: StableKeyView| #[trigger]
                seen@.contains_key(k.flat()) <==> exists|j: int| 0 <= j < i && (#[trigger] views[j]).key == k,
            transfer_typed(views, results, i as nat) == Ok::<Seq<TypedView>, StableJournalError>(typed_views(typed@)),
        decreases records.len() - i,
    {
        let record = &records[i];
        let ghost key = record.key@;
        let ghost before = seen@;
        assert(views[i as int] == record@);
        assert(before.contains_key(key.flat()) <==> exists|j: int| 0 <= j < i && (#[trigger] views[j]).key == key);
        if let Some(_) = seen.insert(record.key.flat(), ()) {
            proof {
                crate::transfer::lemma_transfer_fault(views, results, (i + 1) as nat, views.len());
            }
            return Err(StableJournalError::Corrupt("duplicate migrated stable key"));
        }
        let ghost done = typed@;
        match validate_transfer_record(record, limits) {
            Ok(pair) => {
                typed.push(pair);
                assert(typed_views(typed@) =~= typed_views(done).push((pair.0@, pair.1@)));
            },
            Err(e) => {
                proof {
                    crate::transfer::lemma_transfer_fault(views, results, (i + 1) as nat, views.len());
                }
                return Err(e);
            },
        }
        proof {
            assert forall|k: StableKeyView| #[trigger] seen@.contains_key(k.flat()) <==> exists|j: int|
                0 <= j < i + 1 && (#[trigger] views[j]).key == k by {
                crate::record::lemma_flat_injective(k, key);
                if k == key {
                    assert(views[i as int].key == k);
                }
                if before.contains_key(k.flat()) {
                    let j = choose|j: int| 0 <= j < i && (#[trigger] views[j]).key == k;
                    assert(0 <= j < i + 1 && views[j].key == k);
                }
            }
        }
        i += 1;
    }
    Ok(typed)
}

/// What stays of transferred records, all of whose payloads are shorter than `bound`.
fn sanitize_within(records: &Vec<StableRecord>, limits: StableJournalLimits, bound: Ghost<nat>) -> (sanitized: Result<
    SanitizedTransferRecords,
    StableJournalError,
>)
    requires
        forall|i: int| 0 <= i < records@.len() ==> (#[trigger] records@[i]).payload@.len() < bound@,
    ensures
        same_sanitized(
            sanitized,
            sanitize_transfer(record_views(records@), checked(record_views(records@), limits), limits),
        ),
    decreases bound@, 2nat,
{
    proof {
        reveal(sanitize_transfer);
    }
    let ghost views = record_views(records@);
    let typed = typed_within(records, limits, Ghost(bound@))?;
    let ghost all = typed_views(typed@);
    proof {
        lemma_typed_length(views, checked(views, limits), views.len());
    }
    let s = suppression(&typed);
    let mut stable: Vec<StableRecord> = Vec::new();
    let mut kept: Vec<(JournalKey, JournalRecord)> = Vec::new();
    let mut i: usize = 0;
    while i < records.len()
        invariant
            i <= records.len(),
            views == record_views(records@),
            all == typed_views(typed@),
            all.len() == views.len(),
            suppression_of(s, all, all.len()),
            record_views(stable@) == retained_stable(views, all, i as nat),
            typed_views(kept@) == retained(all, i as nat),
        decreases records.len() - i,
    {
        let (key, record) = &typed[i];
        if !legacy_record_is_suppressed(record, &s, Ghost(all)) {
            let ghost before = stable@;
            let ghost before_kept = kept@;
            stable.push(records[i].copy());
            kept.push((key.copy(), record.copy()));
            assert(record_views(stable@) =~= record_views(before).push(views[i as int]));
            assert(typed_views(kept@) =~= typed_views(before_kept).push(all[i as int]));
        }
        i += 1;
    }
    if stable.len() > limits.max_records {
        return Err(StableJournalError::LimitExceeded("migration record count"));
    }
    Ok(SanitizedTransferRecords { stable, typed: kept })
}

/// Every transferred record has a typed form.
proof fn lemma_typed_length(records: Seq<StableRecordView>, results: Seq<Transfer>, n: nat)
    ensures
        transfer_typed(records, results, n) matches Ok(all) ==> all.len() == n,
    decreases n,
{
    if n > 0 {
        lemma_typed_length(records, results, (n - 1) as nat);
    }
}

/// One more than the longest payload among the first `n` records.
pub open spec fn payload_bound(records: Seq<StableRecordView>, n: nat) -> nat
    decreases n,
{
    if n == 0 {
        0
    } else {
        let rest = payload_bound(records, (n - 1) as nat);
        if records[n - 1].payload.len() < rest {
            rest
        } else {
            records[n - 1].payload.len() + 1
        }
    }
}

/// Every payload is shorter than the bound.
proof fn lemma_payload_bound(records: Seq<StableRecordView>, n: nat)
    requires
        n <= records.len(),
    ensures
        forall|i: int| 0 <= i < n ==> (#[trigger] records[i]).payload.len() < payload_bound(records, n),
    decreases n,
{
    if n > 0 {
        lemma_payload_bound(records, (n - 1) as nat);
    }
}

/// What stays of transferred records.
pub fn sanitize_transfer_records(records: &Vec<StableRecord>, limits: StableJournalLimits) -> (sanitized: Result<
    SanitizedTransferRecords,
    StableJournalError,
>)
    ensures
        same_sanitized(
            sanitized,
            sanitize_transfer(record_views(records@), checked(record_views(records@), limits), limits),
        ),
{
    let ghost views = record_views(records@);
    let ghost bound = payload_bound(views, views.len());
    proof {
        lemma_payload_bound(views, views.len());
        assert forall|i: int| 0 <= i < records@.len() implies (#[trigger] records@[i]).payload@.len() < bound by {
            assert(views[i].payload.len() < bound);
        }
    }
    sanitize_within(records, limits, Ghost(bound))
}

/// The typed form of what stays of transferred records.
pub fn decode_transfer_records(records: &Vec<StableRecord>, limits: StableJournalLimits) -> (typed: Result<
    Vec<(JournalKey, JournalRecord)>,
    StableJournalError,
>)
    ensures
        match sanitize_transfer(record_views(records@), checked(record_views(records@), limits), limits) {
            Ok((_, expected)) => typed is Ok && typed_views(typed->Ok_0@) == expected,
            Err(e) => typed == Err::<Vec<(JournalKey, JournalRecord)>, StableJournalError>(e),
        },
{
    let sanitized = sanitize_transfer_records(records, limits)?;
    Ok(sanitized.typed)
}

/// Whether the keys are in strictly increasing order.
fn in_canonical_order(records: &Vec<StableRecord>) -> (ordered: bool)
    ensures
        ordered == canonical_order(record_views(records@)),
{
    let ghost views = record_views(records@);
    let mut i: usize = 1;
    while i < records.len()
        invariant
            1 <= i,
            views == record_views(records@),
            forall|j: int|
                1 <= j < i && j < views.len() ==> crate::bytes::lex_lt(
                    views[j - 1].key.flat(),
                    (#[trigger] views[j]).key.flat(),
                ),
        decreases records.len() - i,
    {
        let left = records[i - 1].key.flat();
        let right = records[i].key.flat();
        assert(left@ == views[i - 1].key.flat());
        assert(right@ == views[i as int].key.flat());
        match byte_order(left.as_slice(), right.as_slice()) {
            ByteOrder::Before => {},
            ByteOrder::Same => {
                proof {
                    crate::bytes::lemma_lex_irreflexive(left@);
                }
                return false;
            },
            ByteOrder::After => {
                proof {
                    crate::bytes::lemma_lex_asymmetric(right@, left@);
                }
                return false;
            },
        }
        i += 1;
    }
    true
}

/// The protocol state of one export at one moment.
#[derive(Clone, PartialEq, Eq)]
pub struct MigrationStableSnapshot {
    pub source_generation: u64,
    pub server_identity: ServerIdentityRecord,
    pub boot: BootRecord,
    pub handle_key: HandleKeyRecord,
    pub records: Vec<StableRecord>,
}

impl View for MigrationStableSnapshot {
    type V = SnapshotView;

    open spec fn view(&self) -> SnapshotView {
        SnapshotView {
            source_generation: self.source_generation,
            server_identity: self.server_identity@,
            boot: self.boot@,
            handle_key: self.handle_key@,
            records: record_views(self.records@),
        }
    }
}

/// Checks a snapshot, all of whose payloads are shorter than `bound`.
fn validate_snapshot_within(
    source_generation: u64,
    server_identity: &ServerIdentityRecord,
    boot: &BootRecord,
    handle_key: &HandleKeyRecord,
    records: &Vec<StableRecord>,
    export_id: ExportId,
    limits: StableJournalLimits,
    bound: Ghost<nat>,
) -> (done: Result<(), StableJournalError>)
    requires
        forall|i: int| 0 <= i < records@.len() ==> (#[trigger] records@[i]).payload@.len() < bound@,
    ensures
        done == snapshot_checked(
            (SnapshotView {
                source_generation,
                server_identity: server_identity@,
                boot: boot@,
                handle_key: handle_key@,
                records: record_views(records@),
            }),
            checked(record_views(records@), limits),
            export_id,
            limits,
        ),
    decreases bound@, 3nat,
{
    proof {
        reveal(snapshot_checked);
        reveal(record_checked);
    }
    if is_all_zero(server_identity.identity.as_slice()) || is_all_zero(handle_key.instance_id.as_slice())
        || is_all_zero(handle_key.secret.as_slice()) {
        return Err(StableJournalError::Corrupt("invalid migration identity"));
    }
    if source_generation == 0 {
        return Err(StableJournalError::Corrupt("zero migration source generation"));
    }
    JournalRecord::Boot(*boot).validate()?;
    let sanitized = sanitize_within(records, limits, Ghost(bound@))?;
    if !in_canonical_order(&sanitized.stable) {
        return Err(StableJournalError::Corrupt("migration records are not in canonical order"));
    }
    if sanitized.stable.len() >= limits.max_batch_mutations {
        return Err(StableJournalError::LimitExceeded("migration record count"));
    }
    validate_migration_image(&sanitized.typed, export_id)
}

/// Checks a migration snapshot.
pub fn validate_migration_snapshot(
    snapshot: &MigrationStableSnapshot,
    export_id: ExportId,
    limits: StableJournalLimits,
) -> (done: Result<(), StableJournalError>)
    ensures
        done == snapshot_checked(snapshot@, checked(snapshot@.records, limits), export_id, limits),
{
    let ghost views = record_views(snapshot.records@);
    let ghost bound = payload_bound(views, views.len());
    proof {
        lemma_payload_bound(views, views.len());
        assert forall|i: int| 0 <= i < snapshot.records@.len() implies (#[trigger] snapshot.records@[i]).payload@.len()
            < bound by {
            assert(views[i].payload.len() < bound);
        }
    }
    validate_snapshot_within(
        snapshot.source_generation,
        &snapshot.server_identity,
        &snapshot.boot,
        &snapshot.handle_key,
        &snapshot.records,
        export_id,
        limits,
        Ghost(bound),
    )
}

/// Checks a capsule, all of whose payloads are shorter than `bound`.
fn validate_capsule_within(capsule: &MigrationCapsuleRecord, limits: StableJournalLimits, bound: Ghost<nat>) -> (done:
    Result<(), StableJournalError>)
    requires
        forall|i: int| 0 <= i < capsule.records@.len() ==> (#[trigger] capsule.records@[i]).payload@.len() < bound@,
    ensures
        done == capsule_valid(capsule@, checked(capsule@.records, limits), limits),
    decreases bound@, 4nat,
{
    proof {
        reveal(capsule_valid);
    }
    if is_all_zero(capsule.transfer_id.as_slice()) || is_all_zero(capsule.coordinator_token_digest.as_slice())
        || is_all_zero(capsule.bundle_digest.as_slice()) {
        return Err(StableJournalError::Corrupt("invalid migration transaction identity"));
    }
    validate_snapshot_within(
        capsule.source_generation,
        &capsule.server_identity,
        &capsule.boot,
        &capsule.handle_key,
        &capsule.records,
        capsule.export_id,
        limits,
        Ghost(bound@),
    )
}

/// Checks a capsule.
pub fn validate_migration_capsule(capsule: &MigrationCapsuleRecord, limits: StableJournalLimits) -> (done: Result<
    (),
    StableJournalError,
>)
    ensures
        done == capsule_valid(capsule@, checked(capsule@.records, limits), limits),
{
    let ghost views = record_views(capsule.records@);
    let ghost bound = payload_bound(views, views.len());
    proof {
        lemma_payload_bound(views, views.len());
        assert forall|i: int| 0 <= i < capsule.records@.len() implies (#[trigger] capsule.records@[i]).payload@.len()
            < bound by {
            assert(views[i].payload.len() < bound);
        }
    }
    validate_capsule_within(capsule, limits, Ghost(bound))
}

/// A capsule with only the records that stay, or why it is refused.
pub open spec fn sanitize_capsule(capsule: CapsuleView, limits: StableJournalLimits) -> Result<
    CapsuleView,
    StableJournalError,
> {
    match sanitize_transfer(capsule.records, checked(capsule.records, limits), limits) {
        Err(e) => Err(e),
        Ok((stable, _)) => match capsule_valid(with_records(capsule, stable), checked(stable, limits), limits) {
            Err(e) => Err(e),
            Ok(_) => Ok(with_records(capsule, stable)),
        },
    }
}

/// A capsule with only the records that stay.
pub fn sanitize_migration_capsule(capsule: MigrationCapsuleRecord, limits: StableJournalLimits) -> (sanitized: Result<
    MigrationCapsuleRecord,
    StableJournalError,
>)
    ensures
        match sanitized {
            Ok(c) => sanitize_capsule(capsule@, limits) == Ok::<CapsuleView, StableJournalError>(c@),
            Err(e) => sanitize_capsule(capsule@, limits) == Err::<CapsuleView, StableJournalError>(e),
        },
{
    let ghost before = capsule@;
    let mut capsule = capsule;
    let sanitized = sanitize_transfer_records(&capsule.records, limits)?;
    capsule.records = sanitized.stable;
    assert(capsule@ =~= with_records(before, capsule@.records));
    validate_migration_capsule(&capsule, limits)?;
    Ok(capsule)
}

} // verus!
