//! Every value has one encoding: what is read is exactly what would be written.

use vstd::prelude::*;

use crate::codec::{
    be32, be64, be_i64, flag, get_bytes, get_flag, get_i64, get_object, get_opaque, get_option_object, get_u32, get_u64,
    get_u8, lemma_be32, lemma_be64, lemma_be_i64, object_field, opaque_field, option_object_field, start, Cursor,
};
use crate::error::StableJournalError;
use crate::layout::{
    boot_fields, capsule_fields, capsule_identity_fields, capsule_origin_fields, client_fields, contributions_fields,
    delegation_fields, encode_key, encode_record, get_boot, get_capsule, get_capsule_head, get_client,
    get_contribution_set, get_contributions, get_delegation, get_handle_key, get_head, get_key, get_lock, get_open,
    get_origin, get_plain, get_range_set, get_ranges, get_renewal, get_replay, get_revocation, get_stable,
    get_transferred, handle_key_fields, head_field, key_fields, key_magic, lock_fields, open_fields, parse_key,
    parse_record, ranges_fields, record_fields, record_magic, renewal_fields, replay_fields, revocation_fields,
    stable_fields, stables_fields, stables_writable, writable,
};
use crate::limits::StableJournalLimits;
use crate::record::{
    key_shaped, key_tag, kind_code, phase_code, record_tag, KeyView, LockRangeRecord, OpenContributionRecord, RecordView,
    StableKeyView, StableRecordView, MAX_DELEGATION_OBJECT_ID_BYTES, TAG_MIGRATION, TAG_REPLAY,
};

verus! {

/// Bytes that were read stood at the front.
pub proof fn lemma_read_bytes(c: Cursor, length: nat)
    ensures
        get_bytes(c, length) matches Ok((value, next)) ==> c.rest == value + next.rest && value.len() == length,
{
    reveal(get_bytes);
    if get_bytes(c, length) is Ok {
        assert(c.rest =~= c.rest.take(length as int) + c.rest.skip(length as int));
    }
}

/// A byte that was read stood at the front.
pub proof fn lemma_read_u8(c: Cursor)
    ensures
        get_u8(c) matches Ok((value, next)) ==> c.rest == seq![value] + next.rest,
{
    reveal(get_u8);
    lemma_read_bytes(c, 1);
    if let Ok((s, next)) = get_bytes(c, 1) {
        assert(s =~= seq![s[0]]);
    }
}

/// A flag that was read stood at the front.
pub proof fn lemma_read_flag(c: Cursor)
    ensures
        get_flag(c) matches Ok((value, next)) ==> c.rest == flag(value) + next.rest,
{
    reveal(get_flag);
    lemma_read_u8(c);
}

/// A number that was read stood at the front.
pub proof fn lemma_read_u32(c: Cursor)
    ensures
        get_u32(c) matches Ok((value, next)) ==> c.rest == be32(value) + next.rest,
{
    reveal(get_u32);
    lemma_read_bytes(c, 4);
    if let Ok((s, next)) = get_bytes(c, 4) {
        lemma_be32(0, s);
    }
}

/// A number that was read stood at the front.
pub proof fn lemma_read_u64(c: Cursor)
    ensures
        get_u64(c) matches Ok((value, next)) ==> c.rest == be64(value) + next.rest,
{
    reveal(get_u64);
    lemma_read_bytes(c, 8);
    if let Ok((s, next)) = get_bytes(c, 8) {
        lemma_be64(0, s);
    }
}

/// A number that was read stood at the front.
pub proof fn lemma_read_i64(c: Cursor)
    ensures
        get_i64(c) matches Ok((value, next)) ==> c.rest == be_i64(value) + next.rest,
{
    reveal(get_i64);
    lemma_read_bytes(c, 8);
    if let Ok((s, next)) = get_bytes(c, 8) {
        lemma_be_i64(0, s);
    }
}

/// A byte string that was read stood at the front, behind its length.
pub proof fn lemma_read_opaque(c: Cursor, limit: nat)
    ensures
        get_opaque(c, limit) matches Ok((value, next)) ==> c.rest == opaque_field(value) + next.rest && value.len()
            <= limit && value.len() <= u32::MAX,
{
    reveal(get_opaque);
    lemma_read_u32(c);
    if let Ok((length, next)) = get_u32(c) {
        lemma_read_bytes(next, length as nat);
        if let Ok((value, last)) = get_opaque(c, limit) {
            assert(value.len() as u32 == length);
            assert(be32(length) + (value + last.rest) =~= opaque_field(value) + last.rest);
        }
    }
}

/// An object that was read stood at the front.
pub proof fn lemma_read_object(c: Cursor)
    ensures
        get_object(c) matches Ok((value, next)) ==> c.rest == object_field(value) + next.rest,
{
    reveal(get_object);
    lemma_read_u32(c);
    if let Ok((export_id, c1)) = get_u32(c) {
        lemma_read_u64(c1);
        if let Ok((file_id, c2)) = get_u64(c1) {
            lemma_read_u64(c2);
            if let Ok((object, c3)) = get_object(c) {
                assert(be32(export_id) + (be64(file_id) + (be64(object.generation) + c3.rest)) =~= object_field(object)
                    + c3.rest);
            }
        }
    }
}

/// An object that may be absent and that was read stood at the front.
pub proof fn lemma_read_option_object(c: Cursor)
    ensures
        get_option_object(c) matches Ok((value, next)) ==> c.rest == option_object_field(value) + next.rest,
{
    reveal(get_option_object);
    lemma_read_flag(c);
    if let Ok((present, next)) = get_flag(c) {
        lemma_read_object(next);
        if let Ok((value, last)) = get_option_object(c) {
            if present {
                assert(flag(true) + (object_field(value->0) + last.rest) =~= option_object_field(value) + last.rest);
            }
        }
    }
}

/// A head that was read stood at the front.
pub proof fn lemma_read_head(c: Cursor, magic: Seq<u8>)
    ensures
        get_head(c, magic) matches Ok((tag, next)) ==> c.rest == head_field(magic, tag) + next.rest,
{
    reveal(get_head);
    lemma_read_bytes(c, magic.len());
    if let Ok((s, c1)) = get_bytes(c, magic.len()) {
        lemma_read_u32(c1);
        if let Ok((version, c2)) = get_u32(c1) {
            lemma_read_u8(c2);
            if let Ok((tag, next)) = get_head(c, magic) {
                assert(magic + (be32(version) + (seq![tag] + next.rest)) =~= head_field(magic, tag) + next.rest);
            }
        }
    }
}

/// The fields of a key that were read stood at the front.
proof fn lemma_read_key(tag: u8, c: Cursor, limits: StableJournalLimits)
    ensures
        get_key(tag, c, limits) matches Ok((key, next)) ==> {
            &&& c.rest == key_fields(key) + next.rest
            &&& key_tag(key) == tag
            &&& key_shaped(key)
            &&& key matches KeyView::Replay { owner, .. } ==> owner.len() <= limits.max_key_bytes && owner.len() <= u32::MAX
        },
{
    reveal(get_key);
    lemma_read_u64(c);
    lemma_read_u32(c);
    lemma_read_bytes(c, 16);
    assert(c.rest =~= Seq::<u8>::empty() + c.rest);
    if tag == TAG_REPLAY {
        if let Ok((client_id, c1)) = get_u64(c) {
            lemma_read_u8(c1);
            if let Ok((code, c2)) = get_u8(c1) {
                lemma_read_opaque(c2, limits.max_key_bytes as nat);
                if let Ok((key, next)) = get_key(tag, c, limits) {
                    let owner = key->Replay_owner;
                    assert(be64(client_id) + (seq![code] + (opaque_field(owner) + next.rest)) =~= key_fields(key)
                        + next.rest);
                }
            }
        }
    } else if tag == TAG_MIGRATION {
        if let Ok((export, c1)) = get_u32(c) {
            lemma_read_bytes(c1, 16);
            if let Ok((key, next)) = get_key(tag, c, limits) {
                assert(be32(export) + (key->transfer_id + next.rest) =~= key_fields(key) + next.rest);
            }
        }
    }
}

/// A key has one stored form: a storage key that stands for a key is the one under which that key is stored.
pub proof fn lemma_key_canonical(stored: StableKeyView, limits: StableJournalLimits)
    ensures
        parse_key(stored, limits) matches Ok(key) ==> key_shaped(key) && encode_key(key, limits) == Ok::<
            StableKeyView,
            StableJournalError,
        >(stored),
{
    reveal(parse_key);
    let c = start(stored.key);
    lemma_read_head(c, key_magic());
    if let Ok((tag, c1)) = get_head(c, key_magic()) {
        lemma_read_key(tag, c1, limits);
        if let Ok(key) = parse_key(stored, limits) {
            let last = (get_key(tag, c1, limits)->Ok_0).1;
            assert(last.rest =~= Seq::<u8>::empty());
            assert(head_field(key_magic(), tag) + (key_fields(key) + last.rest) =~= head_field(
                key_magic(),
                key_tag(key),
            ) + key_fields(key));
        }
    }
}

/// A boot record that was read stood at the front.
proof fn lemma_read_boot(c: Cursor)
    ensures
        get_boot(c) matches Ok((r, next)) ==> c.rest == boot_fields(r) + next.rest,
{
    reveal(get_boot);
    lemma_read_bytes(c, 8);
    if let Ok((verifier, c1)) = get_bytes(c, 8) {
        lemma_read_u32(c1);
        if let Ok((boot_tag, c2)) = get_u32(c1) {
            lemma_read_i64(c2);
            if let Ok((started, c3)) = get_i64(c2) {
                lemma_read_flag(c3);
                if let Ok((r, next)) = get_boot(c) {
                    assert(verifier + (be32(boot_tag) + (be_i64(started) + (flag(r.clean_shutdown) + next.rest)))
                        =~= boot_fields(r) + next.rest);
                }
            }
        }
    }
}

/// A handle key that was read stood at the front.
proof fn lemma_read_handle_key(c: Cursor)
    ensures
        get_handle_key(c) matches Ok((r, next)) ==> c.rest == handle_key_fields(r) + next.rest,
{
    reveal(get_handle_key);
    lemma_read_bytes(c, 8);
    if let Ok((instance_id, c1)) = get_bytes(c, 8) {
        lemma_read_bytes(c1, 32);
        if let Ok((r, next)) = get_handle_key(c) {
            assert(instance_id + (r.secret + next.rest) =~= handle_key_fields(r) + next.rest);
        }
    }
}

/// A client record that was read stood at the front.
proof fn lemma_read_client(c: Cursor, limits: StableJournalLimits)
    ensures
        get_client(c, limits) matches Ok((r, next)) ==> {
            &&& c.rest == client_fields(r) + next.rest
            &&& writable(RecordView::Client(r), limits) is Ok
        },
{
    reveal(get_client);
    let limit = limits.max_payload_bytes as nat;
    lemma_read_u64(c);
    if let Ok((client_id, c1)) = get_u64(c) {
        lemma_read_opaque(c1, limit);
        if let Ok((owner, c2)) = get_opaque(c1, limit) {
            lemma_read_bytes(c2, 8);
            if let Ok((verifier, c3)) = get_bytes(c2, 8) {
                lemma_read_opaque(c3, limit);
                if let Ok((principal, c4)) = get_opaque(c3, limit) {
                    lemma_read_flag(c4);
                    if let Ok((r, next)) = get_client(c, limits) {
                        assert(be64(client_id) + (opaque_field(owner) + (verifier + (opaque_field(principal) + (flag(
                            r.confirmed,
                        ) + next.rest)))) =~= client_fields(r) + next.rest);
                    }
                }
            }
        }
    }
}

/// Contributions that were read stood at the front.
proof fn lemma_read_contributions(c: Cursor, n: nat)
    ensures
        get_contributions(c, n) matches Ok((list, next)) ==> list.len() == n && c.rest == contributions_fields(list, n)
            + next.rest,
    decreases n,
{
    if n == 0 {
        assert(c.rest =~= Seq::<u8>::empty() + c.rest);
    } else {
        lemma_read_contributions(c, (n - 1) as nat);
        if let Ok((done, c1)) = get_contributions(c, (n - 1) as nat) {
            lemma_read_u32(c1);
            if let Ok((access, c2)) = get_u32(c1) {
                lemma_read_u32(c2);
                if let Ok((deny, c3)) = get_u32(c2) {
                    lemma_read_u32(c3);
                    if let Ok((list, next)) = get_contributions(c, n) {
                        let one = list[n - 1];
                        lemma_contributions_prefix(done, list, (n - 1) as nat);
                        assert(contributions_fields(done, (n - 1) as nat) + (be32(access) + (be32(deny) + (be32(one.count)
                            + next.rest))) =~= contributions_fields(list, n) + next.rest);
                    }
                }
            }
        }
    }
}

/// The fields of the first contributions depend on nothing else.
proof fn lemma_contributions_prefix(a: Seq<OpenContributionRecord>, b: Seq<OpenContributionRecord>, n: nat)
    requires
        n <= a.len(),
        n <= b.len(),
        forall|i: int| 0 <= i < n ==> a[i] == b[i],
    ensures
        contributions_fields(a, n) == contributions_fields(b, n),
    decreases n,
{
    if n > 0 {
        lemma_contributions_prefix(a, b, (n - 1) as nat);
    }
}

/// An open record that was read stood at the front.
proof fn lemma_read_open(c: Cursor, limits: StableJournalLimits)
    ensures
        get_open(c, limits) matches Ok((r, next)) ==> {
            &&& c.rest == open_fields(r) + next.rest
            &&& writable(RecordView::Open(r), limits) is Ok
        },
{
    reveal(get_open);
    reveal(get_contribution_set);
    lemma_read_bytes(c, 16);
    if let Ok((token, c1)) = get_bytes(c, 16) {
        lemma_read_u64(c1);
        if let Ok((client_id, c2)) = get_u64(c1) {
            lemma_read_opaque(c2, limits.max_payload_bytes as nat);
            if let Ok((owner, c3)) = get_opaque(c2, limits.max_payload_bytes as nat) {
                lemma_read_object(c3);
                if let Ok((object, c4)) = get_object(c3) {
                    lemma_read_u32(c4);
                    if let Ok((access, c5)) = get_u32(c4) {
                        lemma_read_u32(c5);
                        if let Ok((deny, c6)) = get_u32(c5) {
                            lemma_read_u32(c6);
                            if let Ok((count, c7)) = get_u32(c6) {
                                lemma_read_contributions(c7, count as nat);
                                if let Ok((r, next)) = get_open(c, limits) {
                                    assert(r.contributions.len() as u32 == count);
                                    assert(token + (be64(client_id) + (opaque_field(owner) + (object_field(object) + (
                                    be32(access) + (be32(deny) + (be32(count) + (contributions_fields(
                                        r.contributions,
                                        r.contributions.len(),
                                    ) + next.rest))))))) =~= open_fields(r) + next.rest);
                                }
                            }
                        }
                    }
                }
            }
        }
    }
}

/// Ranges that were read stood at the front.
proof fn lemma_read_ranges(c: Cursor, n: nat)
    ensures
        get_ranges(c, n) matches Ok((list, next)) ==> list.len() == n && c.rest == ranges_fields(list, n) + next.rest,
    decreases n,
{
    if n == 0 {
        assert(c.rest =~= Seq::<u8>::empty() + c.rest);
    } else {
        lemma_read_ranges(c, (n - 1) as nat);
        if let Ok((done, c1)) = get_ranges(c, (n - 1) as nat) {
            lemma_read_u64(c1);
            if let Ok((offset, c2)) = get_u64(c1) {
                lemma_read_u64(c2);
                if let Ok((length, c3)) = get_u64(c2) {
                    lemma_read_flag(c3);
                    if let Ok((list, next)) = get_ranges(c, n) {
                        let one = list[n - 1];
                        lemma_ranges_prefix(done, list, (n - 1) as nat);
                        assert(ranges_fields(done, (n - 1) as nat) + (be64(offset) + (be64(length) + (flag(one.write)
                            + next.rest))) =~= ranges_fields(list, n) + next.rest);
                    }
                }
            }
        }
    }
}

/// The fields of the first ranges depend on nothing else.
proof fn lemma_ranges_prefix(a: Seq<LockRangeRecord>, b: Seq<LockRangeRecord>, n: nat)
    requires
        n <= a.len(),
        n <= b.len(),
        forall|i: int| 0 <= i < n ==> a[i] == b[i],
    ensures
        ranges_fields(a, n) == ranges_fields(b, n),
    decreases n,
{
    if n > 0 {
        lemma_ranges_prefix(a, b, (n - 1) as nat);
    }
}

/// A lock record that was read stood at the front.
proof fn lemma_read_lock(c: Cursor, limits: StableJournalLimits)
    ensures
        get_lock(c, limits) matches Ok((r, next)) ==> {
            &&& c.rest == lock_fields(r) + next.rest
            &&& writable(RecordView::Lock(r), limits) is Ok
        },
{
    reveal(get_lock);
    reveal(get_range_set);
    lemma_read_bytes(c, 16);
    if let Ok((token, c1)) = get_bytes(c, 16) {
        lemma_read_bytes(c1, 16);
        if let Ok((open_token, c2)) = get_bytes(c1, 16) {
            lemma_read_u64(c2);
            if let Ok((client_id, c3)) = get_u64(c2) {
                lemma_read_opaque(c3, limits.max_payload_bytes as nat);
                if let Ok((owner, c4)) = get_opaque(c3, limits.max_payload_bytes as nat) {
                    lemma_read_object(c4);
                    if let Ok((object, c5)) = get_object(c4) {
                        lemma_read_u32(c5);
                        if let Ok((count, c6)) = get_u32(c5) {
                            lemma_read_ranges(c6, count as nat);
                            if let Ok((r, next)) = get_lock(c, limits) {
                                assert(r.ranges.len() as u32 == count);
                                assert(token + (open_token + (be64(client_id) + (opaque_field(owner) + (object_field(
                                    object,
                                ) + (be32(count) + (ranges_fields(r.ranges, r.ranges.len()) + next.rest))))))
                                    =~= lock_fields(r) + next.rest);
                            }
                        }
                    }
                }
            }
        }
    }
}

/// A delegation record that was read stood at the front.
proof fn lemma_read_delegation(c: Cursor, limits: StableJournalLimits)
    ensures
        get_delegation(c) matches Ok((r, next)) ==> {
            &&& c.rest == delegation_fields(r) + next.rest
            &&& writable(RecordView::Delegation(r), limits) is Ok
        },
{
    reveal(get_delegation);
    let limit = MAX_DELEGATION_OBJECT_ID_BYTES as nat;
    lemma_read_bytes(c, 16);
    if let Ok((token, c1)) = get_bytes(c, 16) {
        lemma_read_u64(c1);
        if let Ok((client_id, c2)) = get_u64(c1) {
            lemma_read_object(c2);
            if let Ok((object, c3)) = get_object(c2) {
                lemma_read_flag(c3);
                if let Ok((write, c4)) = get_flag(c3) {
                    lemma_read_u64(c4);
                    if let Ok((space, c5)) = get_u64(c4) {
                        lemma_read_opaque(c5, limit);
                        if let Ok((r, next)) = get_delegation(c) {
                            assert(token + (be64(client_id) + (object_field(object) + (flag(write) + (be64(space) + (
                            opaque_field(r.persistent_object_id) + next.rest))))) =~= delegation_fields(r) + next.rest);
                        }
                    }
                }
            }
        }
    }
}

/// A revocation record that was read stood at the front.
proof fn lemma_read_revocation(c: Cursor)
    ensures
        get_revocation(c) matches Ok((r, next)) ==> c.rest == revocation_fields(r) + next.rest,
{
    reveal(get_revocation);
    lemma_read_bytes(c, 16);
    if let Ok((token, c1)) = get_bytes(c, 16) {
        lemma_read_u64(c1);
        if let Ok((client_id, c2)) = get_u64(c1) {
            lemma_read_u8(c2);
            if let Ok((code, c3)) = get_u8(c2) {
                lemma_read_i64(c3);
                if let Ok((r, next)) = get_revocation(c) {
                    assert(token + (be64(client_id) + (seq![code] + (be_i64(r.revoked_at_unix_seconds) + next.rest)))
                        =~= revocation_fields(r) + next.rest);
                }
            }
        }
    }
}

/// A renewal source that was read stood at the front.
proof fn lemma_read_renewal(c: Cursor)
    ensures
        get_renewal(c) matches Ok((source, next)) ==> c.rest == renewal_fields(source) + next.rest,
{
    reveal(get_renewal);
    lemma_read_u8(c);
    if let Ok((code, c1)) = get_u8(c) {
        lemma_read_u64(c1);
        if let Ok((source, next)) = get_renewal(c) {
            if code == 1 {
                let client_id = source->client_id;
                assert(seq![1u8] + (be64(client_id) + next.rest) =~= renewal_fields(source) + next.rest);
            }
        }
    }
}

/// A replay record that was read stood at the front.
#[verifier::rlimit(40)]
proof fn lemma_read_replay(c: Cursor, limits: StableJournalLimits)
    ensures
        get_replay(c, limits) matches Ok((r, next)) ==> {
            &&& c.rest == replay_fields(r) + next.rest
            &&& writable(RecordView::Replay(r), limits) is Ok
        },
{
    reveal(get_replay);
    let limit = limits.max_payload_bytes as nat;
    lemma_read_u64(c);
    if let Ok((client_id, c1)) = get_u64(c) {
        lemma_read_u8(c1);
        if let Ok((code, c2)) = get_u8(c1) {
            lemma_read_opaque(c2, limit);
            if let Ok((owner, c3)) = get_opaque(c2, limit) {
                lemma_read_u32(c3);
                if let Ok((sequence_id, c4)) = get_u32(c3) {
                    lemma_read_bytes(c4, 32);
                    if let Ok((digest, c5)) = get_bytes(c4, 32) {
                        lemma_read_opaque(c5, limit);
                        if let Ok((reply, c6)) = get_opaque(c5, limit) {
                            lemma_read_option_object(c6);
                            if let Ok((object, c7)) = get_option_object(c6) {
                                lemma_read_renewal(c7);
                                if let Ok((r, next)) = get_replay(c, limits) {
                                    assert(be64(client_id) + (seq![code] + (opaque_field(owner) + (be32(sequence_id) + (
                                    digest + (opaque_field(reply) + (option_object_field(object) + (renewal_fields(
                                        r.renewal_source,
                                    ) + next.rest))))))) =~= replay_fields(r) + next.rest);
                                }
                            }
                        }
                    }
                }
            }
        }
    }
}

/// A record that was read stood at the front, migration capsules aside.
proof fn lemma_read_plain(tag: u8, c: Cursor, limits: StableJournalLimits)
    ensures
        get_plain(tag, c, limits) matches Ok((record, next)) ==> {
            &&& c.rest == record_fields(record) + next.rest
            &&& record_tag(record) == tag
            &&& writable(record, limits) is Ok
        },
{
    reveal(get_plain);
    lemma_read_u32(c);
    lemma_read_bytes(c, 16);
    lemma_read_boot(c);
    lemma_read_handle_key(c);
    lemma_read_client(c, limits);
    lemma_read_open(c, limits);
    lemma_read_lock(c, limits);
    lemma_read_delegation(c, limits);
    lemma_read_revocation(c);
    lemma_read_replay(c, limits);
}

/// Where a capsule comes from, as it was read, stood at the front.
proof fn lemma_read_origin(c: Cursor)
    ensures
        get_origin(c) matches Ok((o, next)) ==> c.rest == o.transfer_id + (be32(o.export_id.0) + (be64(o.fsid_major) + (
        be64(o.fsid_minor) + (be64(o.source_generation) + (be64(o.coordinator_generation) + next.rest))))),
{
    reveal(get_origin);
    lemma_read_bytes(c, 16);
    if let Ok((_, c1)) = get_bytes(c, 16) {
        lemma_read_u32(c1);
        if let Ok((_, c2)) = get_u32(c1) {
            lemma_read_u64(c2);
            if let Ok((_, c3)) = get_u64(c2) {
                lemma_read_u64(c3);
                if let Ok((_, c4)) = get_u64(c3) {
                    lemma_read_u64(c4);
                    if let Ok((_, c5)) = get_u64(c4) {
                        lemma_read_u64(c5);
                    }
                }
            }
        }
    }
}

/// A capsule that was read up to its records stood at the front.
proof fn lemma_read_capsule_head(c: Cursor)
    ensures
        get_capsule_head(c) matches Ok((r, next)) ==> c.rest == capsule_origin_fields(r) + (capsule_identity_fields(r)
            + next.rest),
{
    reveal(get_capsule_head);
    lemma_read_origin(c);
    if let Ok((o, c1)) = get_origin(c) {
        lemma_read_bytes(c1, 32);
        if let Ok((token, c2)) = get_bytes(c1, 32) {
            lemma_read_bytes(c2, 32);
            if let Ok((bundle, c3)) = get_bytes(c2, 32) {
                lemma_read_bytes(c3, 16);
                if let Ok((identity, c4)) = get_bytes(c3, 16) {
                    lemma_read_boot(c4);
                    if let Ok((boot, c5)) = get_boot(c4) {
                        lemma_read_handle_key(c5);
                        if let Ok((key, c6)) = get_handle_key(c5) {
                            lemma_read_u8(c6);
                            if let Ok((code, c7)) = get_u8(c6) {
                                if let Ok((r, next)) = get_capsule_head(c) {
                                    assert(phase_code(r.phase) == code);
                                    assert(c1.rest =~= capsule_identity_fields(r) + next.rest);
                                    assert(c.rest =~= capsule_origin_fields(r) + c1.rest);
                                }
                            }
                        }
                    }
                }
            }
        }
    }
}

/// The fields of the first stored records depend on nothing else.
proof fn lemma_stables_prefix(a: Seq<StableRecordView>, b: Seq<StableRecordView>, limits: StableJournalLimits, n: nat)
    requires
        n <= a.len(),
        n <= b.len(),
        forall|i: int| 0 <= i < n ==> a[i] == b[i],
    ensures
        stables_fields(a, n) == stables_fields(b, n),
        stables_writable(a, limits, n) == stables_writable(b, limits, n),
    decreases n,
{
    if n > 0 {
        lemma_stables_prefix(a, b, limits, (n - 1) as nat);
    }
}

/// Stored records that were read stood at the front.
proof fn lemma_read_transferred(c: Cursor, n: nat, limits: StableJournalLimits, bound: nat)
    ensures
        get_transferred(c, n, limits, bound) matches Ok((list, next)) ==> {
            &&& list.len() == n
            &&& c.rest == stables_fields(list, n) + next.rest
            &&& stables_writable(list, limits, n) is Ok
        },
    decreases n,
{
    if n == 0 {
        assert(c.rest =~= Seq::<u8>::empty() + c.rest);
    } else {
        reveal(get_stable);
        lemma_read_transferred(c, (n - 1) as nat, limits, bound);
        if let Ok((done, c1)) = get_transferred(c, (n - 1) as nat, limits, bound) {
            lemma_read_u8(c1);
            if let Ok((code, c2)) = get_u8(c1) {
                lemma_read_opaque(c2, limits.max_key_bytes as nat);
                if let Ok((key, c3)) = get_opaque(c2, limits.max_key_bytes as nat) {
                    lemma_read_opaque(c3, limits.max_payload_bytes as nat);
                    if let Ok((list, next)) = get_transferred(c, n, limits, bound) {
                        let one = list[n - 1];
                        lemma_stables_prefix(done, list, limits, (n - 1) as nat);
                        assert(kind_code(one.key.kind) == code);
                        assert(c1.rest =~= stable_fields(one) + next.rest);
                        assert(stables_fields(done, (n - 1) as nat) + (stable_fields(one) + next.rest) =~= stables_fields(
                            list,
                            n,
                        ) + next.rest);
                    }
                }
            }
        }
    }
}

/// The records that a stored capsule carries.
pub open spec fn carried(payload: Seq<u8>, limits: StableJournalLimits) -> Seq<StableRecordView> {
    let c = (get_capsule_head((get_head(start(payload), record_magic())->Ok_0).1)->Ok_0).1;
    let (count, c1) = get_u32(c)->Ok_0;
    (get_transferred(c1, count as nat, limits, payload.len())->Ok_0).0
}

/// A capsule that was read and keeps all of its records stood at the front.
proof fn lemma_read_capsule(c: Cursor, limits: StableJournalLimits, bound: nat)
    ensures
        get_capsule(c, limits, bound) matches Ok((record, next)) ==> {
            &&& record is Migration
            &&& ({
                let (count, c1) = get_u32((get_capsule_head(c)->Ok_0).1)->Ok_0;
                (record->Migration_0).records == (get_transferred(c1, count as nat, limits, bound)->Ok_0).0
            }) ==> c.rest == record_fields(record) + next.rest && writable(record, limits) is Ok
        },
{
    lemma_read_capsule_head(c);
    if let Ok((head, c1)) = get_capsule_head(c) {
        lemma_read_u32(c1);
        if let Ok((count, c2)) = get_u32(c1) {
            lemma_read_transferred(c2, count as nat, limits, bound);
            if let Ok((record, next)) = get_capsule(c, limits, bound) {
                let r = record->Migration_0;
                let list = (get_transferred(c2, count as nat, limits, bound)->Ok_0).0;
                if r.records == list {
                    assert(r.records.len() as u32 == count);
                    assert(capsule_origin_fields(r) == capsule_origin_fields(head));
                    assert(capsule_identity_fields(r) == capsule_identity_fields(head));
                    assert(c.rest =~= capsule_fields(r) + next.rest);
                }
            }
        }
    }
}

/// A record has one stored form: a payload that stands for a record is the one as which that record is stored. A
/// migration keeps no record that an active image no longer carries, so its payload is the one as which it is stored
/// where it carried none.
pub proof fn lemma_record_canonical(payload: Seq<u8>, limits: StableJournalLimits)
    ensures
        parse_record(payload, limits) matches Ok(record) ==> (record matches RecordView::Migration(capsule)
            ==> capsule.records == carried(payload, limits)) ==> encode_record(record, limits) == Ok::<
            Seq<u8>,
            StableJournalError,
        >(payload),
{
    let c = start(payload);
    lemma_read_head(c, record_magic());
    if let Ok((tag, c1)) = get_head(c, record_magic()) {
        lemma_read_plain(tag, c1, limits);
        lemma_read_capsule(c1, limits, payload.len());
        if let Ok(record) = parse_record(payload, limits) {
            if record matches RecordView::Migration(capsule) ==> capsule.records == carried(payload, limits) {
                let last = if tag == TAG_MIGRATION {
                    (get_capsule(c1, limits, payload.len())->Ok_0).1
                } else {
                    (get_plain(tag, c1, limits)->Ok_0).1
                };
                assert(last.rest =~= Seq::<u8>::empty());
                assert(head_field(record_magic(), tag) + (record_fields(record) + last.rest) =~= head_field(
                    record_magic(),
                    record_tag(record),
                ) + record_fields(record));
            }
        }
    }
}

} // verus!
