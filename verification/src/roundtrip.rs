//! What is written to the journal is what is read back from it.

use vstd::prelude::*;

use crate::check::{open_checked, record_checked};
use crate::codec::{
    be32, be64, be_i64, flag, lemma_be32, lemma_be64, lemma_be_i64, lemma_get_bytes, lemma_get_flag, lemma_get_i64,
    lemma_get_object, lemma_get_opaque, lemma_get_option_object, lemma_get_u32, lemma_get_u64, lemma_get_u8, lemma_join,
    object_field, opaque_field, option_object_field, start, Cursor,
};
use crate::error::StableJournalError;
use crate::layout::{
    boot_fields, capsule_fields, capsule_identity_fields, capsule_origin_fields, check_transfer, checked, client_fields,
    contribution_fields,
    contributions_fields, delegation_fields, encode_key, encode_record, get_boot, get_capsule, get_capsule_head,
    get_client, get_contribution_set, get_contributions, get_delegation, get_handle_key, get_head, get_key, get_lock,
    get_open, get_origin, get_plain, get_range_set, get_ranges, get_renewal, get_replay, get_revocation, get_stable,
    get_transferred, handle_key_fields, head_field, key_fields, key_magic, lemma_checked_within, lock_fields,
    open_fields, parse_key, parse_record, range_fields, ranges_fields, record_fields, record_magic, renewal_fields,
    replay_fields, revocation_fields, stable_fields, stables_fields, stables_writable, with_records, writable,
    OriginView,
};
use crate::limits::StableJournalLimits;
use crate::record::{
    capsule_shaped, key_kind, key_shaped, key_tag, kind_code, owner_kind_code, phase_code, reason_code, record_shaped,
    record_tag, BootView, CapsuleView, ClientView, DelegationView, HandleKeyView, KeyView, LockRangeRecord, LockView,
    OpenContributionRecord, OpenView, RecordView, ReplayRenewalSource, ReplayView, RevocationView, StableRecordView,
    SCHEMA_VERSION,
};
use crate::transfer::{retained_stable, sanitize_transfer, transfer_typed, Transfer, TypedView};
use crate::wire::sanitize_capsule;

verus! {

/// The head of a key or record is read as it was written.
proof fn lemma_get_head(magic: Seq<u8>, tag: u8, tail: Seq<u8>)
    requires
        magic.len() == 4,
    ensures
        get_head(start(head_field(magic, tag) + tail), magic) == Ok::<(u8, Cursor), StableJournalError>(
            (tag, Cursor { rest: tail, position: 9 }),
        ),
        head_field(magic, tag).len() == 9,
{
    reveal(get_head);
    lemma_be32(SCHEMA_VERSION, seq![]);
    let t2 = seq![tag] + tail;
    let t1 = be32(SCHEMA_VERSION) + t2;
    assert(head_field(magic, tag) + tail =~= magic + t1);
    lemma_get_bytes(magic, t1, 0);
    lemma_get_u32(SCHEMA_VERSION, t2, 4);
    lemma_get_u8(tag, tail, 8);
}

/// Writing a key and reading it back gives the key.
pub proof fn lemma_key_round_trip(key: KeyView, limits: StableJournalLimits)
    requires
        key_shaped(key),
        encode_key(key, limits) is Ok,
    ensures
        parse_key(encode_key(key, limits)->Ok_0, limits) == Ok::<KeyView, StableJournalError>(key),
{
    reveal(parse_key);
    reveal(get_key);
    let fields = key_fields(key);
    let none = Seq::<u8>::empty();
    lemma_get_head(key_magic(), key_tag(key), fields);
    assert(fields + none =~= fields);
    match key {
        KeyView::Client { client_id } => {
            lemma_get_u64(client_id, none, 9);
        },
        KeyView::Open { state_token } => {
            lemma_get_bytes(state_token, none, 9);
        },
        KeyView::Lock { state_token } => {
            lemma_get_bytes(state_token, none, 9);
        },
        KeyView::Delegation { state_token } => {
            lemma_get_bytes(state_token, none, 9);
        },
        KeyView::Revocation { state_token } => {
            lemma_get_bytes(state_token, none, 9);
        },
        KeyView::Replay { client_id, owner_kind, owner } => {
            lemma_be64(client_id, none);
            lemma_be32(owner.len() as u32, none);
            lemma_get_u64(client_id, seq![owner_kind_code(owner_kind)] + opaque_field(owner), 9);
            lemma_get_u8(owner_kind_code(owner_kind), opaque_field(owner), 17);
            assert(opaque_field(owner) + none =~= opaque_field(owner));
            lemma_get_opaque(owner, limits.max_key_bytes as nat, none, 18);
        },
        KeyView::Migration { export_id, transfer_id } => {
            assert(transfer_id + none =~= transfer_id);
            lemma_get_u32(export_id.0, transfer_id, 9);
            lemma_get_bytes(transfer_id, none, 13);
        },
        _ => {},
    }
}

/// Distinct keys are stored under distinct storage keys.
pub proof fn lemma_key_injective(a: KeyView, b: KeyView, limits: StableJournalLimits)
    requires
        key_shaped(a),
        key_shaped(b),
        encode_key(a, limits) is Ok,
        encode_key(a, limits) == encode_key(b, limits),
    ensures
        a == b,
{
    lemma_key_round_trip(a, limits);
    lemma_key_round_trip(b, limits);
}

proof fn lemma_get_boot(r: BootView, tail: Seq<u8>, p: nat)
    requires
        r.verifier.len() == 8,
        p + 21 <= usize::MAX,
    ensures
        get_boot(Cursor { rest: boot_fields(r) + tail, position: p }) == Ok::<(BootView, Cursor), StableJournalError>(
            (r, Cursor { rest: tail, position: p + 21 }),
        ),
        boot_fields(r).len() == 21,
{
    reveal(get_boot);
    lemma_be32(r.boot_tag, seq![]);
    lemma_be_i64(r.started_at_unix_seconds, seq![]);
    let t3 = flag(r.clean_shutdown) + tail;
    let t2 = be_i64(r.started_at_unix_seconds) + t3;
    let t1 = be32(r.boot_tag) + t2;
    assert(boot_fields(r) + tail =~= r.verifier + t1);
    lemma_get_bytes(r.verifier, t1, p);
    lemma_get_u32(r.boot_tag, t2, p + 8);
    lemma_get_i64(r.started_at_unix_seconds, t3, p + 12);
    lemma_get_flag(r.clean_shutdown, tail, p + 20);
}

proof fn lemma_get_handle_key(r: HandleKeyView, tail: Seq<u8>, p: nat)
    requires
        r.instance_id.len() == 8,
        r.secret.len() == 32,
        p + 40 <= usize::MAX,
    ensures
        get_handle_key(Cursor { rest: handle_key_fields(r) + tail, position: p }) == Ok::<
            (HandleKeyView, Cursor),
            StableJournalError,
        >((r, Cursor { rest: tail, position: p + 40 })),
        handle_key_fields(r).len() == 40,
{
    reveal(get_handle_key);
    assert(handle_key_fields(r) + tail =~= r.instance_id + (r.secret + tail));
    lemma_get_bytes(r.instance_id, r.secret + tail, p);
    lemma_get_bytes(r.secret, tail, p + 8);
}

proof fn lemma_get_client(r: ClientView, limits: StableJournalLimits, p: nat)
    requires
        r.verifier.len() == 8,
        writable(RecordView::Client(r), limits) is Ok,
        p + client_fields(r).len() <= usize::MAX,
    ensures
        get_client(Cursor { rest: client_fields(r), position: p }, limits) == Ok::<(ClientView, Cursor), StableJournalError>(
            (r, Cursor { rest: seq![], position: p + client_fields(r).len() }),
        ),
{
    reveal(get_client);
    let none = Seq::<u8>::empty();
    let limit = limits.max_payload_bytes as nat;
    lemma_be64(r.client_id, none);
    lemma_be32(r.owner.len() as u32, none);
    lemma_be32(r.canonical_principal.len() as u32, none);
    let t4 = flag(r.confirmed);
    let t3 = opaque_field(r.canonical_principal) + t4;
    let t2 = r.verifier + t3;
    let t1 = opaque_field(r.owner) + t2;
    assert(t4 + none =~= t4);
    lemma_get_u64(r.client_id, t1, p);
    let p1 = p + 8;
    lemma_get_opaque(r.owner, limit, t2, p1);
    let p2 = p1 + 4 + r.owner.len();
    lemma_get_bytes(r.verifier, t3, p2);
    let p3 = p2 + 8;
    lemma_get_opaque(r.canonical_principal, limit, t4, p3);
    let p4 = p3 + 4 + r.canonical_principal.len();
    lemma_get_flag(r.confirmed, none, p4);
}

/// Contributions are read as they were written, and each takes its fixed room.
proof fn lemma_get_contributions(s: Seq<OpenContributionRecord>, n: nat, tail: Seq<u8>, p: nat)
    requires
        n <= s.len(),
        p + 12 * n <= usize::MAX,
    ensures
        contributions_fields(s, n).len() == 12 * n,
        get_contributions(Cursor { rest: contributions_fields(s, n) + tail, position: p }, n) == Ok::<
            (Seq<OpenContributionRecord>, Cursor),
            StableJournalError,
        >((s.take(n as int), Cursor { rest: tail, position: p + 12 * n })),
    decreases n,
{
    if n == 0 {
        assert(contributions_fields(s, n) + tail =~= tail);
        assert(s.take(0) =~= Seq::<OpenContributionRecord>::empty());
    } else {
        let one = s[n - 1];
        let m = (n - 1) as nat;
        let field = contribution_fields(one);
        lemma_be32(one.share_access, seq![]);
        lemma_be32(one.share_deny, seq![]);
        lemma_be32(one.count, seq![]);
        lemma_join(contributions_fields(s, m), field, tail);
        lemma_get_contributions(s, m, field + tail, p);
        let q = p + 12 * m;
        let t2 = be32(one.count) + tail;
        let t1 = be32(one.share_deny) + t2;
        assert(field + tail =~= be32(one.share_access) + t1);
        lemma_get_u32(one.share_access, t1, q);
        lemma_get_u32(one.share_deny, t2, q + 4);
        lemma_get_u32(one.count, tail, q + 8);
        assert(s.take(n as int) =~= s.take(m as int).push(one));
    }
}

proof fn lemma_get_open(r: OpenView, limits: StableJournalLimits, p: nat)
    requires
        r.state_token.len() == 16,
        writable(RecordView::Open(r), limits) is Ok,
        p + open_fields(r).len() <= usize::MAX,
    ensures
        get_open(Cursor { rest: open_fields(r), position: p }, limits) == Ok::<(OpenView, Cursor), StableJournalError>(
            (r, Cursor { rest: seq![], position: p + open_fields(r).len() }),
        ),
{
    reveal(get_open);
    reveal(get_contribution_set);
    let none = Seq::<u8>::empty();
    let n = r.contributions.len();
    assert(0 < n <= 12) by {
        reveal(open_checked);
    }
    lemma_be64(r.client_id, none);
    lemma_be32(r.owner.len() as u32, none);
    lemma_be32(r.share_access, none);
    lemma_be32(r.share_deny, none);
    lemma_be32(n as u32, none);
    lemma_object_length(r.object);
    let t7 = contributions_fields(r.contributions, n);
    let t6 = be32(n as u32) + t7;
    let t5 = be32(r.share_deny) + t6;
    let t4 = be32(r.share_access) + t5;
    let t3 = object_field(r.object) + t4;
    let t2 = opaque_field(r.owner) + t3;
    let t1 = be64(r.client_id) + t2;
    lemma_get_bytes(r.state_token, t1, p);
    lemma_get_u64(r.client_id, t2, p + 16);
    lemma_get_opaque(r.owner, limits.max_payload_bytes as nat, t3, p + 24);
    let q = p + 28 + r.owner.len();
    lemma_get_object(r.object, t4, q);
    lemma_get_u32(r.share_access, t5, q + 20);
    lemma_get_u32(r.share_deny, t6, q + 24);
    lemma_get_u32(n as u32, t7, q + 28);
    lemma_contributions_length(r.contributions, n);
    lemma_get_contributions(r.contributions, n, none, q + 32);
    assert(t7 + none =~= t7);
    assert(r.contributions.take(n as int) =~= r.contributions);
}

proof fn lemma_contributions_length(s: Seq<OpenContributionRecord>, n: nat)
    requires
        n <= s.len(),
    ensures
        contributions_fields(s, n).len() == 12 * n,
    decreases n,
{
    if n > 0 {
        lemma_contributions_length(s, (n - 1) as nat);
        lemma_be32(s[n - 1].share_access, seq![]);
        lemma_be32(s[n - 1].share_deny, seq![]);
        lemma_be32(s[n - 1].count, seq![]);
    }
}

proof fn lemma_object_length(object: crate::codec::StableObject)
    ensures
        object_field(object).len() == 20,
{
    lemma_be32(object.export_id.0, seq![]);
    lemma_be64(object.file_id, seq![]);
    lemma_be64(object.generation, seq![]);
}

proof fn lemma_ranges_length(s: Seq<LockRangeRecord>, n: nat)
    requires
        n <= s.len(),
    ensures
        ranges_fields(s, n).len() == 17 * n,
    decreases n,
{
    if n > 0 {
        lemma_ranges_length(s, (n - 1) as nat);
        lemma_be64(s[n - 1].offset, seq![]);
        lemma_be64(s[n - 1].length, seq![]);
    }
}

/// Ranges are read as they were written.
proof fn lemma_get_ranges(s: Seq<LockRangeRecord>, n: nat, tail: Seq<u8>, p: nat)
    requires
        n <= s.len(),
        p + 17 * n <= usize::MAX,
    ensures
        get_ranges(Cursor { rest: ranges_fields(s, n) + tail, position: p }, n) == Ok::<
            (Seq<LockRangeRecord>, Cursor),
            StableJournalError,
        >((s.take(n as int), Cursor { rest: tail, position: p + 17 * n })),
    decreases n,
{
    if n == 0 {
        assert(ranges_fields(s, n) + tail =~= tail);
        assert(s.take(0) =~= Seq::<LockRangeRecord>::empty());
    } else {
        let one = s[n - 1];
        let m = (n - 1) as nat;
        let field = range_fields(one);
        lemma_be64(one.offset, seq![]);
        lemma_be64(one.length, seq![]);
        lemma_join(ranges_fields(s, m), field, tail);
        lemma_get_ranges(s, m, field + tail, p);
        let q = p + 17 * m;
        let t2 = flag(one.write) + tail;
        let t1 = be64(one.length) + t2;
        assert(field + tail =~= be64(one.offset) + t1);
        lemma_get_u64(one.offset, t1, q);
        lemma_get_u64(one.length, t2, q + 8);
        lemma_get_flag(one.write, tail, q + 16);
        assert(s.take(n as int) =~= s.take(m as int).push(one));
    }
}

proof fn lemma_get_lock(r: LockView, limits: StableJournalLimits, p: nat)
    requires
        r.state_token.len() == 16,
        r.open_state_token.len() == 16,
        writable(RecordView::Lock(r), limits) is Ok,
        p + lock_fields(r).len() <= usize::MAX,
    ensures
        get_lock(Cursor { rest: lock_fields(r), position: p }, limits) == Ok::<(LockView, Cursor), StableJournalError>(
            (r, Cursor { rest: seq![], position: p + lock_fields(r).len() }),
        ),
{
    reveal(get_lock);
    reveal(get_range_set);
    let none = Seq::<u8>::empty();
    let n = r.ranges.len();
    lemma_be64(r.client_id, none);
    lemma_be32(r.owner.len() as u32, none);
    lemma_be32(n as u32, none);
    lemma_object_length(r.object);
    lemma_ranges_length(r.ranges, n);
    let t6 = ranges_fields(r.ranges, n);
    let t5 = be32(n as u32) + t6;
    let t4 = object_field(r.object) + t5;
    let t3 = opaque_field(r.owner) + t4;
    let t2 = be64(r.client_id) + t3;
    let t1 = r.open_state_token + t2;
    lemma_get_bytes(r.state_token, t1, p);
    lemma_get_bytes(r.open_state_token, t2, p + 16);
    lemma_get_u64(r.client_id, t3, p + 32);
    lemma_get_opaque(r.owner, limits.max_payload_bytes as nat, t4, p + 40);
    let q = p + 44 + r.owner.len();
    lemma_get_object(r.object, t5, q);
    lemma_get_u32(n as u32, t6, q + 20);
    lemma_get_ranges(r.ranges, n, none, q + 24);
    assert(t6 + none =~= t6);
    assert(r.ranges.take(n as int) =~= r.ranges);
}

proof fn lemma_get_delegation(r: DelegationView, limits: StableJournalLimits, p: nat)
    requires
        r.state_token.len() == 16,
        writable(RecordView::Delegation(r), limits) is Ok,
        p + delegation_fields(r).len() <= usize::MAX,
    ensures
        get_delegation(Cursor { rest: delegation_fields(r), position: p }) == Ok::<
            (DelegationView, Cursor),
            StableJournalError,
        >((r, Cursor { rest: seq![], position: p + delegation_fields(r).len() })),
{
    reveal(get_delegation);
    let none = Seq::<u8>::empty();
    lemma_be64(r.client_id, none);
    lemma_be64(r.requested_space, none);
    lemma_be32(r.persistent_object_id.len() as u32, none);
    lemma_object_length(r.object);
    let t5 = opaque_field(r.persistent_object_id);
    let t4 = be64(r.requested_space) + t5;
    let t3 = flag(r.write) + t4;
    let t2 = object_field(r.object) + t3;
    let t1 = be64(r.client_id) + t2;
    assert(t5 + none =~= t5);
    lemma_get_bytes(r.state_token, t1, p);
    lemma_get_u64(r.client_id, t2, p + 16);
    lemma_get_object(r.object, t3, p + 24);
    lemma_get_flag(r.write, t4, p + 44);
    lemma_get_u64(r.requested_space, t5, p + 45);
    lemma_get_opaque(r.persistent_object_id, 1024, none, p + 53);
}

proof fn lemma_get_revocation(r: RevocationView, p: nat)
    requires
        r.state_token.len() == 16,
        p + revocation_fields(r).len() <= usize::MAX,
    ensures
        get_revocation(Cursor { rest: revocation_fields(r), position: p }) == Ok::<
            (RevocationView, Cursor),
            StableJournalError,
        >((r, Cursor { rest: seq![], position: p + revocation_fields(r).len() })),
{
    reveal(get_revocation);
    let none = Seq::<u8>::empty();
    lemma_be64(r.client_id, none);
    lemma_be_i64(r.revoked_at_unix_seconds, none);
    let t3 = be_i64(r.revoked_at_unix_seconds);
    let t2 = seq![reason_code(r.reason)] + t3;
    let t1 = be64(r.client_id) + t2;
    assert(t3 + none =~= t3);
    lemma_get_bytes(r.state_token, t1, p);
    lemma_get_u64(r.client_id, t2, p + 16);
    lemma_get_u8(reason_code(r.reason), t3, p + 24);
    lemma_get_i64(r.revoked_at_unix_seconds, none, p + 25);
}

proof fn lemma_get_renewal(source: ReplayRenewalSource, p: nat)
    requires
        p + renewal_fields(source).len() <= usize::MAX,
    ensures
        get_renewal(Cursor { rest: renewal_fields(source), position: p }) == Ok::<
            (ReplayRenewalSource, Cursor),
            StableJournalError,
        >((source, Cursor { rest: seq![], position: p + renewal_fields(source).len() })),
{
    reveal(get_renewal);
    let none = Seq::<u8>::empty();
    match source {
        ReplayRenewalSource::Unset => {
            assert(seq![0u8] + none =~= seq![0u8]);
            lemma_get_u8(0, none, p);
        },
        ReplayRenewalSource::StateId { client_id } => {
            lemma_be64(client_id, none);
            assert(be64(client_id) + none =~= be64(client_id));
            lemma_get_u8(1, be64(client_id), p);
            lemma_get_u64(client_id, none, p + 1);
        },
    }
}

proof fn lemma_get_replay(r: ReplayView, limits: StableJournalLimits, p: nat)
    requires
        r.request_digest.len() == 32,
        writable(RecordView::Replay(r), limits) is Ok,
        p + replay_fields(r).len() <= usize::MAX,
    ensures
        get_replay(Cursor { rest: replay_fields(r), position: p }, limits) == Ok::<(ReplayView, Cursor), StableJournalError>(
            (r, Cursor { rest: seq![], position: p + replay_fields(r).len() }),
        ),
{
    reveal(get_replay);
    let none = Seq::<u8>::empty();
    let limit = limits.max_payload_bytes as nat;
    lemma_be64(r.client_id, none);
    lemma_be32(r.owner.len() as u32, none);
    lemma_be32(r.reply.len() as u32, none);
    lemma_be32(r.sequence_id, none);
    let t7 = renewal_fields(r.renewal_source);
    let t6 = option_object_field(r.current_object) + t7;
    let t5 = opaque_field(r.reply) + t6;
    let t4 = r.request_digest + t5;
    let t3 = be32(r.sequence_id) + t4;
    let t2 = opaque_field(r.owner) + t3;
    let t1 = seq![owner_kind_code(r.owner_kind)] + t2;
    lemma_get_u64(r.client_id, t1, p);
    lemma_get_u8(owner_kind_code(r.owner_kind), t2, p + 8);
    lemma_get_opaque(r.owner, limit, t3, p + 9);
    let q = p + 13 + r.owner.len();
    lemma_get_u32(r.sequence_id, t4, q);
    lemma_get_bytes(r.request_digest, t5, q + 4);
    lemma_get_opaque(r.reply, limit, t6, q + 36);
    let s = q + 40 + r.reply.len();
    lemma_get_option_object(r.current_object, t7, s);
    lemma_get_renewal(r.renewal_source, s + option_object_field(r.current_object).len());
}

/// A record other than a capsule is read as it was written.
proof fn lemma_get_plain(record: RecordView, limits: StableJournalLimits)
    requires
        record_shaped(record),
        !(record is Migration),
        writable(record, limits) is Ok,
        9 + record_fields(record).len() <= usize::MAX,
    ensures
        get_plain(record_tag(record), Cursor { rest: record_fields(record), position: 9 }, limits) == Ok::<
            (RecordView, Cursor),
            StableJournalError,
        >((record, Cursor { rest: seq![], position: 9 + record_fields(record).len() })),
{
    reveal(get_plain);
    let none = Seq::<u8>::empty();
    let fields = record_fields(record);
    assert(fields + none =~= fields);
    match record {
        RecordView::Schema(r) => {
            lemma_be32(r.version, none);
            lemma_get_u32(r.version, none, 9);
        },
        RecordView::ServerIdentity(identity) => {
            lemma_get_bytes(identity, none, 9);
        },
        RecordView::Boot(r) => {
            lemma_be32(r.boot_tag, none);
            lemma_be_i64(r.started_at_unix_seconds, none);
            lemma_get_boot(r, none, 9);
        },
        RecordView::HandleKey(r) => {
            lemma_get_handle_key(r, none, 9);
        },
        RecordView::Client(r) => {
            lemma_get_client(r, limits, 9);
        },
        RecordView::Open(r) => {
            lemma_get_open(r, limits, 9);
        },
        RecordView::Lock(r) => {
            lemma_get_lock(r, limits, 9);
        },
        RecordView::Delegation(r) => {
            lemma_get_delegation(r, limits, 9);
        },
        RecordView::Revocation(r) => {
            lemma_get_revocation(r, 9);
        },
        RecordView::Replay(r) => {
            lemma_get_replay(r, limits, 9);
        },
        RecordView::Migration(_) => {},
    }
}

/// Stored records inside a capsule are read as they were written.
proof fn lemma_get_transferred(
    s: Seq<StableRecordView>,
    n: nat,
    limits: StableJournalLimits,
    tail: Seq<u8>,
    p: nat,
    bound: nat,
)
    requires
        n <= s.len(),
        stables_writable(s, limits, n) is Ok,
        p + stables_fields(s, n).len() <= usize::MAX,
        forall|i: int| 0 <= i < n ==> (#[trigger] s[i]).payload.len() < bound,
    ensures
        get_transferred(Cursor { rest: stables_fields(s, n) + tail, position: p }, n, limits, bound) == Ok::<
            (Seq<StableRecordView>, Cursor),
            StableJournalError,
        >((s.take(n as int), Cursor { rest: tail, position: p + stables_fields(s, n).len() })),
    decreases n,
{
    if n == 0 {
        assert(stables_fields(s, n) + tail =~= tail);
        assert(s.take(0) =~= Seq::<StableRecordView>::empty());
    } else {
        let one = s[n - 1];
        let m = (n - 1) as nat;
        let field = stable_fields(one);
        let none = Seq::<u8>::empty();
        lemma_be32(one.key.key.len() as u32, none);
        lemma_be32(one.payload.len() as u32, none);
        lemma_join(stables_fields(s, m), field, tail);
        lemma_get_transferred(s, m, limits, field + tail, p, bound);
        let q = p + stables_fields(s, m).len();
        reveal(get_stable);
        let t2 = opaque_field(one.payload) + tail;
        let t1 = opaque_field(one.key.key) + t2;
        assert(field + tail =~= seq![kind_code(one.key.kind)] + t1);
        lemma_get_u8(kind_code(one.key.kind), t1, q);
        lemma_get_opaque(one.key.key, limits.max_key_bytes as nat, t2, q + 1);
        lemma_get_opaque(one.payload, limits.max_payload_bytes as nat, tail, q + 5 + one.key.key.len());
        assert(s.take(n as int) =~= s.take(m as int).push(one));
    }
}

/// Each stored record takes at least its smallest room, and its payload less than all of them together.
proof fn lemma_stables_length(s: Seq<StableRecordView>, n: nat)
    requires
        n <= s.len(),
    ensures
        stables_fields(s, n).len() >= 9 * n,
        forall|i: int| 0 <= i < n ==> (#[trigger] s[i]).payload.len() < stables_fields(s, n).len(),
    decreases n,
{
    if n > 0 {
        lemma_stables_length(s, (n - 1) as nat);
        lemma_be32(s[n - 1].key.key.len() as u32, seq![]);
        lemma_be32(s[n - 1].payload.len() as u32, seq![]);
    }
}

proof fn lemma_get_origin(r: CapsuleView, tail: Seq<u8>, p: nat)
    requires
        r.transfer_id.len() == 16,
        p + 52 <= usize::MAX,
    ensures
        capsule_origin_fields(r).len() == 52,
        get_origin(Cursor { rest: capsule_origin_fields(r) + tail, position: p }) == Ok::<
            (OriginView, Cursor),
            StableJournalError,
        >(
            (
                OriginView {
                    transfer_id: r.transfer_id,
                    export_id: r.export_id,
                    fsid_major: r.fsid_major,
                    fsid_minor: r.fsid_minor,
                    source_generation: r.source_generation,
                    coordinator_generation: r.coordinator_generation,
                },
                Cursor { rest: tail, position: p + 52 },
            ),
        ),
{
    reveal(get_origin);
    let none = Seq::<u8>::empty();
    lemma_be32(r.export_id.0, none);
    lemma_be64(r.fsid_major, none);
    lemma_be64(r.fsid_minor, none);
    lemma_be64(r.source_generation, none);
    lemma_be64(r.coordinator_generation, none);
    let t5 = be64(r.coordinator_generation) + tail;
    let t4 = be64(r.source_generation) + t5;
    let t3 = be64(r.fsid_minor) + t4;
    let t2 = be64(r.fsid_major) + t3;
    let t1 = be32(r.export_id.0) + t2;
    let s5 = be64(r.coordinator_generation);
    let s4 = be64(r.source_generation) + s5;
    let s3 = be64(r.fsid_minor) + s4;
    let s2 = be64(r.fsid_major) + s3;
    let s1 = be32(r.export_id.0) + s2;
    lemma_join(r.transfer_id, s1, tail);
    lemma_join(be32(r.export_id.0), s2, tail);
    lemma_join(be64(r.fsid_major), s3, tail);
    lemma_join(be64(r.fsid_minor), s4, tail);
    lemma_join(be64(r.source_generation), s5, tail);
    lemma_get_bytes(r.transfer_id, t1, p);
    lemma_get_u32(r.export_id.0, t2, p + 16);
    lemma_get_u64(r.fsid_major, t3, p + 20);
    lemma_get_u64(r.fsid_minor, t4, p + 28);
    lemma_get_u64(r.source_generation, t5, p + 36);
    lemma_get_u64(r.coordinator_generation, tail, p + 44);
}

proof fn lemma_get_capsule_head(r: CapsuleView, tail: Seq<u8>, p: nat)
    requires
        capsule_shaped(r),
        p + 194 <= usize::MAX,
    ensures
        capsule_origin_fields(r).len() == 52,
        capsule_identity_fields(r).len() == 142,
        get_capsule_head(
            Cursor { rest: capsule_origin_fields(r) + (capsule_identity_fields(r) + tail), position: p },
        ) == Ok::<(CapsuleView, Cursor), StableJournalError>(
            (with_records(r, seq![]), Cursor { rest: tail, position: p + 194 }),
        ),
{
    reveal(get_capsule_head);
    let none = Seq::<u8>::empty();
    let phase = seq![phase_code(r.phase)];
    lemma_be32(r.boot.boot_tag, none);
    lemma_be_i64(r.boot.started_at_unix_seconds, none);
    lemma_get_origin(r, capsule_identity_fields(r) + tail, p);
    let s5 = handle_key_fields(r.handle_key) + phase;
    let s4 = boot_fields(r.boot) + s5;
    let s3 = r.server_identity + s4;
    let s2 = r.bundle_digest + s3;
    let t6 = phase + tail;
    let t5 = handle_key_fields(r.handle_key) + t6;
    let t4 = boot_fields(r.boot) + t5;
    let t3 = r.server_identity + t4;
    let t2 = r.bundle_digest + t3;
    lemma_join(r.coordinator_token_digest, s2, tail);
    lemma_join(r.bundle_digest, s3, tail);
    lemma_join(r.server_identity, s4, tail);
    lemma_join(boot_fields(r.boot), s5, tail);
    lemma_join(handle_key_fields(r.handle_key), phase, tail);
    lemma_get_bytes(r.coordinator_token_digest, t2, p + 52);
    lemma_get_bytes(r.bundle_digest, t3, p + 84);
    lemma_get_bytes(r.server_identity, t4, p + 116);
    lemma_get_boot(r.boot, t5, p + 132);
    lemma_get_handle_key(r.handle_key, t6, p + 153);
    lemma_get_u8(phase_code(r.phase), tail, p + 193);
}

/// Each record that stays is one of those that there were.
proof fn lemma_retained_within(records: Seq<StableRecordView>, all: Seq<TypedView>, n: nat)
    requires
        n <= records.len(),
    ensures
        forall|k: int| 0 <= k < retained_stable(records, all, n).len() ==> exists|i: int|
            0 <= i < n && records[i] == #[trigger] retained_stable(records, all, n)[k],
    decreases n,
{
    if n > 0 {
        lemma_retained_within(records, all, (n - 1) as nat);
        let before = retained_stable(records, all, (n - 1) as nat);
        let after = retained_stable(records, all, n);
        assert forall|k: int| 0 <= k < after.len() implies exists|i: int| 0 <= i < n && records[i] == #[trigger] after[k] by {
            if k < before.len() {
                assert(after[k] == before[k]);
                let i = choose|i: int| 0 <= i < n - 1 && records[i] == before[k];
                assert(0 <= i < n && records[i] == after[k]);
            } else {
                assert(records[n - 1] == after[k]);
            }
        }
    }
}

/// The typed forms of transferred records are those of each of them.
proof fn lemma_transfer_typed(records: Seq<StableRecordView>, results: Seq<Transfer>, n: nat)
    requires
        n <= records.len(),
        n <= results.len(),
    ensures
        transfer_typed(records, results, n) matches Ok(all) ==> all == Seq::new(n, |i: int| results[i]->Ok_0),
    decreases n,
{
    if n > 0 {
        lemma_transfer_typed(records, results, (n - 1) as nat);
        if let Ok(all) = transfer_typed(records, results, n) {
            assert(all =~= Seq::new(n, |i: int| results[i]->Ok_0));
        }
    } else {
        assert(Seq::new(0, |i: int| results[i]->Ok_0) =~= Seq::<TypedView>::empty());
    }
}

/// A capsule is read as it was written, but for the records that do not stay.
proof fn lemma_get_capsule(r: CapsuleView, limits: StableJournalLimits, bound: nat)
    requires
        capsule_shaped(r),
        writable(RecordView::Migration(r), limits) is Ok,
        bound == 9 + capsule_fields(r).len(),
        bound <= usize::MAX,
    ensures
        get_capsule(Cursor { rest: capsule_fields(r), position: 9 }, limits, bound) == match sanitize_capsule(r, limits) {
            Ok(d) => Ok::<(RecordView, Cursor), StableJournalError>(
                (RecordView::Migration(d), Cursor { rest: seq![], position: bound }),
            ),
            Err(e) => Err::<(RecordView, Cursor), StableJournalError>(e),
        },
{
    let none = Seq::<u8>::empty();
    let n = r.records.len();
    let all = stables_fields(r.records, n);
    let counted = be32(n as u32) + all;
    lemma_be32(n as u32, none);
    lemma_stables_length(r.records, n);
    lemma_capsule_head_length(r);
    lemma_get_capsule_head(r, counted, 9);
    lemma_get_u32(n as u32, all, 203);
    assert(all + none =~= all);
    assert(all.len() + 207 == bound);
    lemma_get_transferred(r.records, n, limits, none, 207, bound);
    assert(r.records.take(n as int) =~= r.records);
    assert(n <= all.len() / 9) by (nonlinear_arith)
        requires
            all.len() >= 9 * n,
    ;
    lemma_checked_within(r.records, limits, bound);
    reveal(sanitize_transfer);
    if let Ok((stable, _)) = sanitize_transfer(r.records, checked(r.records, limits), limits) {
        let all = transfer_typed(r.records, checked(r.records, limits), n)->Ok_0;
        lemma_retained_within(r.records, all, n);
        assert forall|k: int| 0 <= k < stable.len() implies (#[trigger] stable[k]).payload.len() < bound by {
            let i = choose|i: int| 0 <= i < n && r.records[i] == stable[k];
            assert(r.records[i].payload.len() < bound);
        }
        lemma_checked_within(stable, limits, bound);
        assert(with_records(with_records(r, seq![]), stable) =~= with_records(r, stable));
    }
}

proof fn lemma_capsule_head_length(r: CapsuleView)
    requires
        capsule_shaped(r),
    ensures
        capsule_origin_fields(r).len() == 52,
        capsule_identity_fields(r).len() == 142,
{
    let none = Seq::<u8>::empty();
    lemma_be32(r.export_id.0, none);
    lemma_be64(r.fsid_major, none);
    lemma_be64(r.fsid_minor, none);
    lemma_be64(r.source_generation, none);
    lemma_be64(r.coordinator_generation, none);
    lemma_be32(r.boot.boot_tag, none);
    lemma_be_i64(r.boot.started_at_unix_seconds, none);
}

/// The typed forms of the records that a capsule carries.
pub open spec fn carried_types(capsule: CapsuleView, limits: StableJournalLimits) -> Seq<TypedView> {
    Seq::new(capsule.records.len(), |i: int| check_transfer(capsule.records[i], limits)->Ok_0)
}

/// Writing a migration capsule and reading it back gives the capsule with the records that an active image carries, in
/// their order, and every other field as it was: revocations, revoked delegations and delegations of clients without a
/// confirmed record are left out. It is refused where what stays is too much, or is no valid image.
pub proof fn lemma_capsule_read_back(capsule: CapsuleView, limits: StableJournalLimits)
    requires
        capsule_shaped(capsule),
        encode_record(RecordView::Migration(capsule), limits) is Ok,
    ensures
        ({
            let payload = encode_record(RecordView::Migration(capsule), limits)->Ok_0;
            let read = parse_record(payload, limits);
            let stays = retained_stable(capsule.records, carried_types(capsule, limits), capsule.records.len());
            &&& read == match sanitize_capsule(capsule, limits) {
                Err(e) => Err::<RecordView, StableJournalError>(e),
                Ok(d) => match record_checked(RecordView::Migration(d)) {
                    Err(e) => Err::<RecordView, StableJournalError>(e),
                    Ok(_) => Ok::<RecordView, StableJournalError>(RecordView::Migration(d)),
                },
            }
            &&& read matches Ok(record) ==> record == RecordView::Migration(with_records(capsule, stays))
        }),
{
    let record = RecordView::Migration(capsule);
    let bytes = encode_record(record, limits)->Ok_0;
    lemma_get_head(record_magic(), record_tag(record), record_fields(record));
    lemma_get_capsule(capsule, limits, bytes.len());
    reveal(sanitize_transfer);
    lemma_transfer_typed(capsule.records, checked(capsule.records, limits), capsule.records.len());
    if sanitize_capsule(capsule, limits) is Ok {
        assert(transfer_typed(capsule.records, checked(capsule.records, limits), capsule.records.len())->Ok_0
            =~= carried_types(capsule, limits));
    }
}

/// Writing a valid record and reading it back gives the record. A migration capsule must hold only the
/// records that an active image carries: reading drops the others.
pub proof fn lemma_record_round_trip(record: RecordView, limits: StableJournalLimits)
    requires
        record_shaped(record),
        record_checked(record) is Ok,
        record matches RecordView::Migration(capsule) ==> sanitize_capsule(capsule, limits) == Ok::<
            CapsuleView,
            StableJournalError,
        >(capsule),
        encode_record(record, limits) is Ok,
    ensures
        parse_record(encode_record(record, limits)->Ok_0, limits) == Ok::<RecordView, StableJournalError>(record),
{
    let bytes = encode_record(record, limits)->Ok_0;
    lemma_get_head(record_magic(), record_tag(record), record_fields(record));
    match record {
        RecordView::Migration(capsule) => {
            lemma_get_capsule(capsule, limits, bytes.len());
        },
        _ => {
            lemma_get_plain(record, limits);
        },
    }
}

/// A stored payload is no longer than the configured bound, and a stored key no longer than its own.
pub proof fn lemma_encoding_bounded(key: KeyView, record: RecordView, limits: StableJournalLimits)
    ensures
        encode_key(key, limits) matches Ok(stored) ==> stored.key.len() <= limits.max_key_bytes && stored.kind
            == key_kind(key),
        encode_record(record, limits) matches Ok(payload) ==> payload.len() <= limits.max_payload_bytes,
{
}

} // verus!
