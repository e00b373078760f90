//! What a record must be to be stored, and what a set of records must be to move to another server.

use vstd::prelude::*;

use crate::bytes::{lemma_lex_asymmetric, lemma_lex_transitive, lex_lt, lex_lt_at};
use crate::check::{
    access_union, contributions_checked, deny_union, open_checked, pair_checked, range_before, range_bounded,
    record_checked, same_modes,
};
use crate::codec::{be32, be64, lemma_be32, ExportId};
use crate::error::StableJournalError;
use crate::layout::checked;
use crate::limits::StableJournalLimits;
use crate::locks::{stable_ranges, Piece};
use crate::protocol::LockAccess;
use crate::record::{
    KeyView, LockRangeRecord, LockView, OpenContributionRecord, OpenView, RecordView, ReplayRenewalSource,
    StableRecordView,
};
use crate::snapshot::{decode_image, image_of, import_added, import_projection, sorted_records, upper_place};
use crate::transfer::{
    active_identity, ancestry_at, ancestry_checked, confirmed_as, confirmed_at, delegations_conflict, export_at,
    export_checked, image_checked, is_ancestor, is_client, is_open_state, ownership_at, ownership_checked, same_delegated, sanitize_transfer,
    snapshot_checked, state_client, state_identity, SnapshotView, Transfer, TypedView,
};

verus! {

/// A record has one key: two keys under which it may be stored are the same.
pub proof fn lemma_one_key(a: KeyView, b: KeyView, record: RecordView)
    requires
        pair_checked(a, record) is Ok,
        pair_checked(b, record) is Ok,
    ensures
        a == b,
{
    reveal(pair_checked);
}

/// Bits of numbers that are put together.
proof fn lemma_bits(a: u32, b: u32)
    ensures
        ((a | b) & 1 != 0) == (a & 1 != 0 || b & 1 != 0),
        ((a | b) & 2 != 0) == (a & 2 != 0 || b & 2 != 0),
{
    assert(((a | b) & 1 != 0) == (a & 1 != 0 || b & 1 != 0)) by (bit_vector);
    assert(((a | b) & 2 != 0) == (a & 2 != 0 || b & 2 != 0)) by (bit_vector);
}

/// What the first contributions allow and deny is what one of them does.
proof fn lemma_unions(s: Seq<OpenContributionRecord>, n: nat)
    requires
        n <= s.len(),
    ensures
        (access_union(s, n) & 1 != 0) == exists|i: int| 0 <= i < n && (#[trigger] s[i]).share_access & 1 != 0,
        (access_union(s, n) & 2 != 0) == exists|i: int| 0 <= i < n && (#[trigger] s[i]).share_access & 2 != 0,
        (deny_union(s, n) & 1 != 0) == exists|i: int| 0 <= i < n && (#[trigger] s[i]).share_deny & 1 != 0,
        (deny_union(s, n) & 2 != 0) == exists|i: int| 0 <= i < n && (#[trigger] s[i]).share_deny & 2 != 0,
    decreases n,
{
    if n == 0 {
        assert(0u32 & 1 == 0 && 0u32 & 2 == 0) by (bit_vector);
    } else {
        let m = (n - 1) as nat;
        lemma_unions(s, m);
        lemma_bits(access_union(s, m), s[m as int].share_access);
        lemma_bits(deny_union(s, m), s[m as int].share_deny);
    }
}

/// What is checked of the first contributions.
proof fn lemma_contributions(s: Seq<OpenContributionRecord>, n: nat)
    requires
        n <= s.len(),
        contributions_checked(s, n) is Ok,
    ensures
        forall|i: int|
            0 <= i < n ==> 1 <= (#[trigger] s[i]).share_access <= 3 && s[i].share_deny <= 3 && s[i].count > 0,
        forall|i: int, j: int|
            0 <= i < j < n ==> (#[trigger] s[i]).share_access != (#[trigger] s[j]).share_access || s[i].share_deny
                != s[j].share_deny,
    decreases n,
{
    if n > 0 {
        lemma_contributions(s, (n - 1) as nat);
        let m = n - 1;
        assert forall|i: int, j: int| 0 <= i < j < n implies (#[trigger] s[i]).share_access != (#[trigger] s[j]).share_access
            || s[i].share_deny != s[j].share_deny by {
            if j == m {
                assert(!same_modes(s[i], s[m]));
            }
        }
    }
}

/// An open that is stored has an owner. It allows and denies, bit by bit, what some of the requests that it is made of do;
/// those are there under each combination once, and at least one of them.
pub proof fn lemma_stored_open(key: KeyView, open: OpenView)
    requires
        pair_checked(key, RecordView::Open(open)) is Ok,
    ensures
        key == (KeyView::Open { state_token: open.state_token }),
        open.owner.len() > 0,
        open.contributions.len() > 0,
        1 <= open.share_access <= 3,
        open.share_deny <= 3,
        forall|i: int|
            0 <= i < open.contributions.len() ==> 1 <= (#[trigger] open.contributions[i]).share_access <= 3
                && open.contributions[i].share_deny <= 3 && open.contributions[i].count > 0,
        forall|i: int, j: int|
            0 <= i < j < open.contributions.len() ==> (#[trigger] open.contributions[i]).share_access != (
            #[trigger] open.contributions[j]).share_access || open.contributions[i].share_deny
                != open.contributions[j].share_deny,
        (open.share_access & 1 != 0) == exists|i: int|
            0 <= i < open.contributions.len() && (#[trigger] open.contributions[i]).share_access & 1 != 0,
        (open.share_access & 2 != 0) == exists|i: int|
            0 <= i < open.contributions.len() && (#[trigger] open.contributions[i]).share_access & 2 != 0,
        (open.share_deny & 1 != 0) == exists|i: int|
            0 <= i < open.contributions.len() && (#[trigger] open.contributions[i]).share_deny & 1 != 0,
        (open.share_deny & 2 != 0) == exists|i: int|
            0 <= i < open.contributions.len() && (#[trigger] open.contributions[i]).share_deny & 2 != 0,
{
    reveal(pair_checked);
    reveal(record_checked);
    reveal(open_checked);
    lemma_contributions(open.contributions, open.contributions.len());
    lemma_unions(open.contributions, open.contributions.len());
}

/// Requests that are well formed and there once each are accepted.
proof fn lemma_contributions_accepted(s: Seq<OpenContributionRecord>, n: nat)
    requires
        n <= s.len(),
        forall|i: int|
            0 <= i < n ==> 1 <= (#[trigger] s[i]).share_access <= 3 && s[i].share_deny <= 3 && s[i].count > 0,
        forall|i: int, j: int|
            0 <= i < j < n ==> (#[trigger] s[i]).share_access != (#[trigger] s[j]).share_access || s[i].share_deny
                != s[j].share_deny,
    ensures
        contributions_checked(s, n) is Ok,
        access_union(s, n) <= 3,
        deny_union(s, n) <= 3,
    decreases n,
{
    if n > 0 {
        let m = (n - 1) as nat;
        lemma_contributions_accepted(s, m);
        let a = access_union(s, m);
        let b = s[m as int].share_access;
        let c = deny_union(s, m);
        let d = s[m as int].share_deny;
        assert(a <= 3 && b <= 3 ==> (a | b) <= 3) by (bit_vector);
        assert(c <= 3 && d <= 3 ==> (c | d) <= 3) by (bit_vector);
    }
}

/// An open may be stored where it has an owner, and allows and denies, bit by bit, what some of the requests that it is
/// made of do.
pub proof fn lemma_open_accepted(open: OpenView)
    requires
        open.owner.len() > 0,
        0 < open.contributions.len() <= 12,
        1 <= open.share_access <= 3,
        open.share_deny <= 3,
        forall|i: int|
            0 <= i < open.contributions.len() ==> 1 <= (#[trigger] open.contributions[i]).share_access <= 3
                && open.contributions[i].share_deny <= 3 && open.contributions[i].count > 0,
        forall|i: int, j: int|
            0 <= i < j < open.contributions.len() ==> (#[trigger] open.contributions[i]).share_access != (
            #[trigger] open.contributions[j]).share_access || open.contributions[i].share_deny
                != open.contributions[j].share_deny,
        (open.share_access & 1 != 0) == exists|i: int|
            0 <= i < open.contributions.len() && (#[trigger] open.contributions[i]).share_access & 1 != 0,
        (open.share_access & 2 != 0) == exists|i: int|
            0 <= i < open.contributions.len() && (#[trigger] open.contributions[i]).share_access & 2 != 0,
        (open.share_deny & 1 != 0) == exists|i: int|
            0 <= i < open.contributions.len() && (#[trigger] open.contributions[i]).share_deny & 1 != 0,
        (open.share_deny & 2 != 0) == exists|i: int|
            0 <= i < open.contributions.len() && (#[trigger] open.contributions[i]).share_deny & 2 != 0,
    ensures
        pair_checked(KeyView::Open { state_token: open.state_token }, RecordView::Open(open)) is Ok,
{
    reveal(pair_checked);
    reveal(record_checked);
    reveal(open_checked);
    let s = open.contributions;
    lemma_contributions_accepted(s, s.len());
    lemma_unions(s, s.len());
    let a = access_union(s, s.len());
    let b = open.share_access;
    let c = deny_union(s, s.len());
    let d = open.share_deny;
    assert(a <= 3 && b <= 3 && ((a & 1 != 0) == (b & 1 != 0)) && ((a & 2 != 0) == (b & 2 != 0)) ==> a == b)
        by (bit_vector);
    assert(c <= 3 && d <= 3 && ((c & 1 != 0) == (d & 1 != 0)) && ((c & 2 != 0) == (d & 2 != 0)) ==> c == d)
        by (bit_vector);
}

/// A range of the stored form holds a byte; a length of zero goes on to the last byte.
pub open spec fn range_holds(range: LockRangeRecord, byte: int) -> bool {
    range.offset <= byte && (range.length == 0 || byte < range.offset + range.length)
}

/// Ranges in order stay in order.
proof fn lemma_ranges_ordered(ranges: Seq<LockRangeRecord>, i: int, j: int)
    requires
        0 <= i < j < ranges.len(),
        forall|k: int| 1 <= k < ranges.len() ==> range_before(ranges[k - 1], #[trigger] ranges[k]),
    ensures
        ranges[i].length != 0,
        ranges[i].offset + ranges[i].length <= ranges[j].offset,
    decreases j - i,
{
    assert(range_before(ranges[j - 1], ranges[j]));
    if i + 1 < j {
        lemma_ranges_ordered(ranges, i, j - 1);
    }
}

/// Locks that are stored have an owner and hold some byte. No byte is held twice, the ranges come in the order of their
/// bytes, and two that meet differ in what they are for. None goes past the last byte that there is.
pub proof fn lemma_stored_lock(key: KeyView, lock: LockView)
    requires
        pair_checked(key, RecordView::Lock(lock)) is Ok,
    ensures
        key == (KeyView::Lock { state_token: lock.state_token }),
        lock.owner.len() > 0,
        lock.ranges.len() > 0,
        forall|i: int|
            0 <= i < lock.ranges.len() ==> (#[trigger] lock.ranges[i]).offset + lock.ranges[i].length <= u64::MAX,
        forall|i: int, j: int, byte: int|
            0 <= i < lock.ranges.len() && 0 <= j < lock.ranges.len() && #[trigger] range_holds(lock.ranges[i], byte)
                && #[trigger] range_holds(lock.ranges[j], byte) ==> i == j,
        forall|i: int, j: int|
            0 <= i < j < lock.ranges.len() ==> (#[trigger] lock.ranges[i]).offset < (#[trigger] lock.ranges[j]).offset,
        forall|i: int|
            1 <= i < lock.ranges.len() && range_holds(lock.ranges[i - 1], lock.ranges[i].offset - 1)
                ==> lock.ranges[i - 1].write != (#[trigger] lock.ranges[i]).write,
{
    reveal(pair_checked);
    reveal(record_checked);
    let ranges = lock.ranges;
    assert forall|i: int| 0 <= i < ranges.len() implies (#[trigger] ranges[i]).offset + ranges[i].length <= u64::MAX by {
        assert(range_bounded(ranges[i]));
    }
    assert forall|i: int, j: int, byte: int|
        0 <= i < ranges.len() && 0 <= j < ranges.len() && #[trigger] range_holds(ranges[i], byte) && #[trigger] range_holds(
            ranges[j],
            byte,
        ) implies i == j by {
        if i < j {
            lemma_ranges_ordered(ranges, i, j);
        } else if j < i {
            lemma_ranges_ordered(ranges, j, i);
        }
    }
    assert forall|i: int, j: int| 0 <= i < j < ranges.len() implies (#[trigger] ranges[i]).offset < (
    #[trigger] ranges[j]).offset by {
        lemma_ranges_ordered(ranges, i, j);
    }
    assert forall|i: int|
        1 <= i < ranges.len() && range_holds(ranges[i - 1], ranges[i].offset - 1) implies ranges[i - 1].write != (
    #[trigger] ranges[i]).write by {
        assert(range_before(ranges[i - 1], ranges[i]));
    }
}

/// Whatever else is stored names what it is about: a client and a reply have an owner, a client has a sender, a reply
/// renews no lease but that of its own client, a run has a tag of its own, and a delegation has an object.
pub proof fn lemma_stored_named(key: KeyView, record: RecordView)
    requires
        pair_checked(key, record) is Ok,
    ensures
        record matches RecordView::Client(client) ==> key == (KeyView::Client { client_id: client.client_id })
            && client.owner.len() > 0 && client.canonical_principal.len() > 0,
        record matches RecordView::Replay(replay) ==> key == (KeyView::Replay {
            client_id: replay.client_id,
            owner_kind: replay.owner_kind,
            owner: replay.owner,
        }) && replay.owner.len() > 0 && (replay.renewal_source matches ReplayRenewalSource::StateId { client_id }
            ==> client_id == replay.client_id),
        record matches RecordView::Boot(boot) ==> boot.boot_tag != 0 && boot.boot_tag != u32::MAX,
        record matches RecordView::Delegation(held) ==> key == (KeyView::Delegation { state_token: held.state_token })
            && held.persistent_object_id.len() > 0 && (exists|i: int|
            0 <= i < held.state_token.take(4).len() && held.state_token.take(4)[i] != 0) && (exists|i: int|
            0 <= i < held.state_token.skip(4).len() && held.state_token.skip(4)[i] != 0),
{
    reveal(pair_checked);
    reveal(record_checked);
}

/// The identity of an open, of locks or of a delegation: its state id without the number in front.
pub open spec fn identity_in(record: RecordView) -> Option<Seq<u8>> {
    match record {
        RecordView::Open(open) => Some(open.state_token.skip(4)),
        RecordView::Lock(lock) => Some(lock.state_token.skip(4)),
        RecordView::Delegation(held) => Some(held.state_token.skip(4)),
        _ => None,
    }
}

/// What is checked of the first records of an export.
proof fn lemma_export_records(records: Seq<TypedView>, export_id: ExportId, n: nat)
    requires
        n <= records.len(),
    ensures
        export_checked(records, export_id, n) is Ok <==> forall|i: int|
            0 <= i < n ==> export_at((#[trigger] records[i]).1, export_id) is Ok,
    decreases n,
{
    if n > 0 {
        lemma_export_records(records, export_id, (n - 1) as nat);
    }
}

/// What is checked of the first locks.
proof fn lemma_ancestries(records: Seq<TypedView>, n: nat)
    requires
        n <= records.len(),
    ensures
        ancestry_checked(records, n) is Ok <==> forall|i: int| 0 <= i < n ==> #[trigger] ancestry_at(records, i) is Ok,
    decreases n,
{
    if n > 0 {
        lemma_ancestries(records, (n - 1) as nat);
    }
}

/// What is checked of the first delegations.
proof fn lemma_ownerships(records: Seq<TypedView>, n: nat)
    requires
        n <= records.len(),
    ensures
        ownership_checked(records, n) is Ok <==> forall|i: int| 0 <= i < n ==> #[trigger] ownership_at(records, i) is Ok,
    decreases n,
{
    if n > 0 {
        lemma_ownerships(records, (n - 1) as nat);
    }
}

/// A confirmed record is found.
proof fn lemma_confirmed_found(records: Seq<TypedView>, client_id: u64, n: nat)
    requires
        n <= records.len(),
    ensures
        match confirmed_at(records, client_id, n) {
            Some(at) => 0 <= at < n && confirmed_as(records[at].1, client_id),
            None => forall|i: int| 0 <= i < n ==> !confirmed_as((#[trigger] records[i]).1, client_id),
        },
    decreases n,
{
    if n > 0 {
        lemma_confirmed_found(records, client_id, (n - 1) as nat);
    }
}

/// The records of an export that moves are of that export: each of its opens, locks and delegations, and the object that a
/// reply is about. Beside those there are clients, and every record that belongs to a client comes with that client.
pub proof fn lemma_moved_of_export(records: Seq<TypedView>, export_id: ExportId, i: int)
    requires
        image_checked(records, export_id) is Ok,
        0 <= i < records.len(),
    ensures
        moves_with(records, export_id, i),
{
    reveal(image_checked);
    lemma_export_records(records, export_id, records.len());
    assert(export_at(records[i].1, export_id) is Ok);
    if let Some(client_id) = state_client(records[i].1) {
        let j = choose|j: int| 0 <= j < records.len() && is_client((#[trigger] records[j]).1, client_id);
        assert(is_client_of(records[j].1, client_id));
    }
}

/// A record is one that moves with an export: an open, locks or a delegation of it, the last reply to an owner, if it is
/// about an object of it, and a client or a revocation; whatever belongs to a client comes with that client.
pub open spec fn moves_with(records: Seq<TypedView>, export_id: ExportId, i: int) -> bool {
    match records[i].1 {
        RecordView::Open(open) => open.object.export_id == export_id && comes_with(records, open.client_id),
        RecordView::Lock(lock) => lock.object.export_id == export_id && comes_with(records, lock.client_id),
        RecordView::Delegation(held) => held.object.export_id == export_id && comes_with(records, held.client_id),
        RecordView::Replay(replay) => (replay.current_object matches Some(object) ==> object.export_id == export_id)
            && comes_with(records, replay.client_id),
        RecordView::Client(_) => true,
        RecordView::Revocation(_) => true,
        _ => false,
    }
}

/// The record of a client.
pub open spec fn is_client_of(record: RecordView, client_id: u64) -> bool {
    record matches RecordView::Client(client) && client.client_id == client_id
}

/// The record of a client is among the records.
pub open spec fn comes_with(records: Seq<TypedView>, client_id: u64) -> bool {
    exists|j: int| 0 <= j < records.len() && is_client_of((#[trigger] records[j]).1, client_id)
}

/// Among the records of an export that moves, no two states are one, whatever they are; and every lock comes with the open
/// through which it is held, of the same client and the same object.
pub proof fn lemma_moved_apart(records: Seq<TypedView>, export_id: ExportId, i: int, j: int)
    requires
        image_checked(records, export_id) is Ok,
        0 <= i < records.len(),
        0 <= j < records.len(),
    ensures
        i != j && identity_in(records[i].1) is Some ==> identity_in(records[i].1) != identity_in(records[j].1),
        records[i].1 matches RecordView::Lock(lock) ==> exists|k: int|
            0 <= k < records.len() && #[trigger] holds_lock(records[k].1, lock),
{
    reveal(image_checked);
    assert(active_identity(records[i].1) == identity_in(records[i].1));
    assert(active_identity(records[j].1) == identity_in(records[j].1));
    lemma_ancestries(records, records.len());
    assert(ancestry_at(records, i) is Ok);
    if let RecordView::Lock(lock) = records[i].1 {
        let k = choose|k: int| is_ancestor(records, k, lock);
        assert(holds_lock(records[k].1, lock));
    }
}

/// The open through which locks are held.
pub open spec fn holds_lock(record: RecordView, lock: LockView) -> bool {
    record matches RecordView::Open(open) && open.state_token.skip(4) == lock.open_state_token.skip(4) && open.client_id
        == lock.client_id && open.object == lock.object
}

/// Whoever has a delegation that moves is confirmed. Of two delegations of one object, neither is one to write, and they
/// are of different clients.
pub proof fn lemma_moved_delegations(records: Seq<TypedView>, export_id: ExportId, i: int, j: int)
    requires
        image_checked(records, export_id) is Ok,
        0 <= i < records.len(),
        0 <= j < records.len(),
        i != j,
        records[i].1 is Delegation,
        records[j].1 is Delegation,
        records[i].1->Delegation_0.object.export_id == records[j].1->Delegation_0.object.export_id,
        records[i].1->Delegation_0.persistent_object_id == records[j].1->Delegation_0.persistent_object_id,
    ensures
        !records[i].1->Delegation_0.write,
        !records[j].1->Delegation_0.write,
        records[i].1->Delegation_0.client_id != records[j].1->Delegation_0.client_id,
        exists|k: int| 0 <= k < records.len() && #[trigger] confirmed_client(
            records[k].1,
            records[i].1->Delegation_0.client_id,
        ),
        forall|k: int, l: int|
            0 <= k < records.len() && 0 <= l < records.len() && #[trigger] confirmed_once(
                records,
                k,
                records[i].1->Delegation_0.client_id,
            ) && #[trigger] confirmed_once(records, l, records[j].1->Delegation_0.client_id) ==> {
                let one = records[k].1->Client_0;
                let two = records[l].1->Client_0;
                one.owner != two.owner || one.verifier != two.verifier || one.canonical_principal
                    != two.canonical_principal
            },
{
    reveal(image_checked);
    lemma_ownerships(records, records.len());
    assert(ownership_at(records, i) is Ok);
    assert(ownership_at(records, j) is Ok);
    if i < j {
        assert(!delegations_conflict(records, i, j));
    } else {
        assert(!delegations_conflict(records, j, i));
    }
    let a = records[i].1->Delegation_0.client_id;
    let b = records[j].1->Delegation_0.client_id;
    lemma_confirmed_found(records, a, records.len());
    lemma_confirmed_found(records, b, records.len());
    assert(confirmed_client(records[confirmed_at(records, a, records.len())->0].1, a));
    assert forall|k: int, l: int|
        0 <= k < records.len() && 0 <= l < records.len() && #[trigger] confirmed_once(records, k, a)
            && #[trigger] confirmed_once(records, l, b) implies {
        let one = records[k].1->Client_0;
        let two = records[l].1->Client_0;
        one.owner != two.owner || one.verifier != two.verifier || one.canonical_principal != two.canonical_principal
    } by {
        let p = confirmed_at(records, a, records.len())->0;
        let q = confirmed_at(records, b, records.len())->0;
        assert(confirmed_client(records[p].1, a));
        assert(confirmed_client(records[q].1, b));
        assert(p == k && q == l);
    }
}

/// Two delegations can be held at once: they are of different objects, or both are to read and of different clients.
pub open spec fn held_together(records: Seq<TypedView>, i: int, j: int) -> bool {
    let one = records[i].1->Delegation_0;
    let two = records[j].1->Delegation_0;
    ||| one.object.export_id != two.object.export_id
    ||| one.persistent_object_id != two.persistent_object_id
    ||| {
        &&& !one.write
        &&& !two.write
        &&& exists|k: int, l: int|
            0 <= k < records.len() && 0 <= l < records.len() && #[trigger] confirmed_once(records, k, one.client_id)
                && #[trigger] confirmed_once(records, l, two.client_id) && ({
                ||| records[k].1->Client_0.owner != records[l].1->Client_0.owner
                ||| records[k].1->Client_0.verifier != records[l].1->Client_0.verifier
                ||| records[k].1->Client_0.canonical_principal != records[l].1->Client_0.canonical_principal
            })
    }
}

/// Records that are all of an export, with their clients and the opens behind their locks, with no state twice, and with
/// delegations that can be held at once, may move.
pub proof fn lemma_moved_accepted(records: Seq<TypedView>, export_id: ExportId)
    requires
        forall|i: int| 0 <= i < records.len() ==> #[trigger] moves_with(records, export_id, i),
        forall|i: int, j: int|
            0 <= i < j < records.len() && identity_in((#[trigger] records[i]).1) is Some ==> identity_in(records[i].1)
                != identity_in((#[trigger] records[j]).1),
        forall|i: int|
            0 <= i < records.len() ==> ((#[trigger] records[i]).1 matches RecordView::Lock(lock) ==> exists|k: int|
                0 <= k < records.len() && #[trigger] holds_lock(records[k].1, lock)),
        forall|i: int|
            0 <= i < records.len() ==> ((#[trigger] records[i]).1 matches RecordView::Delegation(held) ==> exists|k: int|
                0 <= k < records.len() && #[trigger] confirmed_once(records, k, held.client_id)),
        forall|i: int, j: int|
            0 <= j < i < records.len() && records[i].1 is Delegation && records[j].1 is Delegation
                ==> #[trigger] held_together(records, i, j),
    ensures
        image_checked(records, export_id) is Ok,
{
    reveal(image_checked);
    lemma_export_records(records, export_id, records.len());
    lemma_ancestries(records, records.len());
    lemma_ownerships(records, records.len());
    assert forall|i: int| 0 <= i < records.len() implies export_at((#[trigger] records[i]).1, export_id) is Ok by {
        assert(moves_with(records, export_id, i));
    }
    assert forall|i: int, j: int|
        0 <= i < j < records.len() && active_identity(#[trigger] records[i].1) is Some implies active_identity(
        records[i].1,
    ) != active_identity(#[trigger] records[j].1) by {
        assert(active_identity(records[i].1) == identity_in(records[i].1));
        assert(active_identity(records[j].1) == identity_in(records[j].1));
    }
    assert forall|i: int| 0 <= i < records.len() implies #[trigger] ancestry_at(records, i) is Ok by {
        if let RecordView::Lock(lock) = records[i].1 {
            let k = choose|k: int| 0 <= k < records.len() && #[trigger] holds_lock(records[k].1, lock);
            assert(is_open_state(records, k, state_identity(lock.open_state_token)));
            assert(is_ancestor(records, k, lock));
        }
    }
    assert forall|i: int| 0 <= i < records.len() implies #[trigger] ownership_at(records, i) is Ok by {
        if let RecordView::Delegation(held) = records[i].1 {
            let k = choose|k: int| 0 <= k < records.len() && #[trigger] confirmed_once(records, k, held.client_id);
            lemma_confirmed_found(records, held.client_id, records.len());
            assert(confirmed_as(records[k].1, held.client_id));
            assert forall|j: int| 0 <= j < i implies !#[trigger] delegations_conflict(records, j, i) by {
                if let RecordView::Delegation(other) = records[j].1 {
                    assert(held_together(records, i, j));
                    if same_delegated(other, held) {
                        let (p, q) = choose|p: int, q: int|
                            0 <= p < records.len() && 0 <= q < records.len() && #[trigger] confirmed_once(
                                records,
                                p,
                                held.client_id,
                            ) && #[trigger] confirmed_once(records, q, other.client_id) && ({
                                ||| records[p].1->Client_0.owner != records[q].1->Client_0.owner
                                ||| records[p].1->Client_0.verifier != records[q].1->Client_0.verifier
                                ||| records[p].1->Client_0.canonical_principal != records[q].1->Client_0.canonical_principal
                            });
                        lemma_confirmed_found(records, other.client_id, records.len());
                        assert(confirmed_as(records[p].1, held.client_id));
                        assert(confirmed_as(records[q].1, other.client_id));
                        let a = confirmed_at(records, held.client_id, records.len())->0;
                        let b = confirmed_at(records, other.client_id, records.len())->0;
                        assert(confirmed_client(records[a].1, held.client_id));
                        assert(confirmed_client(records[b].1, other.client_id));
                        assert(a == p && b == q);
                    }
                }
            }
        }
    }
    assert forall|i: int| 0 <= i < records.len() && state_client((#[trigger] records[i]).1) is Some implies exists|j: int|
        0 <= j < records.len() && is_client((#[trigger] records[j]).1, state_client(records[i].1)->0) by {
        assert(moves_with(records, export_id, i));
        let client_id = state_client(records[i].1)->0;
        let j = choose|j: int| 0 <= j < records.len() && is_client_of((#[trigger] records[j]).1, client_id);
        assert(is_client(records[j].1, client_id));
    }
}

/// The record of a confirmed client.
pub open spec fn confirmed_client(record: RecordView, client_id: u64) -> bool {
    record matches RecordView::Client(client) && client.client_id == client_id && client.confirmed
}

/// The one record of a confirmed client.
pub open spec fn confirmed_once(records: Seq<TypedView>, k: int, client_id: u64) -> bool {
    &&& confirmed_client(records[k].1, client_id)
    &&& forall|l: int| 0 <= l < records.len() && #[trigger] confirmed_client(records[l].1, client_id) ==> l == k
}

/// An import changes nothing that is stored: what it brings under a key that is there is what is there, and what is added
/// are the records whose keys are not.
pub proof fn lemma_import_adds(
    image: Map<Seq<u8>, Seq<u8>>,
    stable: Seq<StableRecordView>,
    typed: Seq<TypedView>,
    n: nat,
)
    requires
        n <= stable.len(),
        stable.len() == typed.len(),
    ensures
        import_added(image, stable, typed, n) is Ok <==> forall|i: int|
            0 <= i < n && image.contains_key((#[trigger] stable[i]).key.flat()) ==> image[stable[i].key.flat()]
                == stable[i].payload,
        import_added(image, stable, typed, n) matches Ok(added) ==> {
            &&& forall|i: int|
                0 <= i < n && !image.contains_key((#[trigger] stable[i]).key.flat()) ==> added.contains(typed[i])
            &&& forall|k: int|
                0 <= k < added.len() ==> exists|i: int|
                    0 <= i < n && !image.contains_key((#[trigger] stable[i]).key.flat()) && typed[i] == #[trigger] added[k]
        },
    decreases n,
{
    if n > 0 {
        let m = (n - 1) as nat;
        lemma_import_adds(image, stable, typed, m);
        if import_added(image, stable, typed, n) is Ok {
            let before = import_added(image, stable, typed, m)->Ok_0;
            let after = import_added(image, stable, typed, n)->Ok_0;
            assert forall|i: int| 0 <= i < n && !image.contains_key((#[trigger] stable[i]).key.flat()) implies after.contains(
                typed[i],
            ) by {
                if i < m {
                    let k = before.index_of(typed[i]);
                    assert(after[k] == before[k]);
                } else {
                    assert(after[after.len() - 1] == typed[i]);
                }
            }
            assert forall|k: int| 0 <= k < after.len() implies exists|i: int|
                0 <= i < n && !image.contains_key((#[trigger] stable[i]).key.flat()) && typed[i] == #[trigger] after[k] by {
                if k < before.len() {
                    assert(after[k] == before[k]);
                    let i = choose|i: int|
                        0 <= i < m && !image.contains_key((#[trigger] stable[i]).key.flat()) && typed[i] == before[k];
                    assert(typed[i] == after[k]);
                } else {
                    assert(!image.contains_key(stable[m as int].key.flat()));
                }
            }
        }
    }
}

/// The bytes of numbers come in the order of the numbers.
pub proof fn lemma_be32_order(a: u32, b: u32)
    ensures
        lex_lt(be32(a), be32(b)) <==> a < b,
{
    assert(a < b <==> ((a >> 24) as u8) < ((b >> 24) as u8) || (a >> 24) as u8 == (b >> 24) as u8 && (((a >> 16) as u8)
        < ((b >> 16) as u8) || (a >> 16) as u8 == (b >> 16) as u8 && (((a >> 8) as u8) < ((b >> 8) as u8) || (a >> 8)
        as u8 == (b >> 8) as u8 && (a as u8) < (b as u8)))) by (bit_vector);
    let x = be32(a);
    let y = be32(b);
    if a < b {
        if x[0] < y[0] {
            assert(lex_lt_at(x, y, 0));
        } else if x[1] < y[1] {
            assert(lex_lt_at(x, y, 1));
        } else if x[2] < y[2] {
            assert(lex_lt_at(x, y, 2));
        } else {
            assert(lex_lt_at(x, y, 3));
        }
    }
    if lex_lt(x, y) {
        let k = choose|k: int| lex_lt_at(x, y, k);
        assert(k == 0 || k == 1 || k == 2 || k == 3);
        assert(k > 0 ==> x[0] == y[0]);
        assert(k > 1 ==> x[1] == y[1]);
        assert(k > 2 ==> x[2] == y[2]);
    }
}

/// The bytes of long numbers come in the order of the numbers.
pub proof fn lemma_be64_order(a: u64, b: u64)
    ensures
        lex_lt(be64(a), be64(b)) <==> a < b,
{
    let high_a = (a >> 32) as u32;
    let high_b = (b >> 32) as u32;
    let low_a = a as u32;
    let low_b = b as u32;
    assert(a < b <==> ((a >> 32) as u32) < ((b >> 32) as u32) || (a >> 32) as u32 == (b >> 32) as u32 && (a as u32) < (
    b as u32)) by (bit_vector);
    lemma_be32_order(high_a, high_b);
    lemma_be32_order(low_a, low_b);
    lemma_be32(high_a, seq![]);
    lemma_be32(high_b, seq![]);
    let x = be64(a);
    let y = be64(b);
    assert(x.len() == 8 && y.len() == 8);
    assert forall|i: int| 0 <= i < 4 implies x[i] == be32(high_a)[i] && y[i] == be32(high_b)[i] && x[i + 4]
        == be32(low_a)[i] && y[i + 4] == be32(low_b)[i] by {
    }
    if a < b {
        if high_a < high_b {
            let k = choose|k: int| lex_lt_at(be32(high_a), be32(high_b), k);
            assert(lex_lt_at(x, y, k));
        } else {
            let k = choose|k: int| lex_lt_at(be32(low_a), be32(low_b), k);
            assert(0 <= k < 4);
            assert forall|j: int| 0 <= j < k + 4 implies x[j] == y[j] by {
                if j >= 4 {
                    assert(x[(j - 4) + 4] == be32(low_a)[j - 4]);
                    assert(y[(j - 4) + 4] == be32(low_b)[j - 4]);
                }
            }
            assert(x[k + 4] == be32(low_a)[k] && y[k + 4] == be32(low_b)[k]);
            assert(lex_lt_at(x, y, k + 4));
        }
    }
    if lex_lt(x, y) {
        let k = choose|k: int| lex_lt_at(x, y, k);
        if k < 4 {
            assert(lex_lt_at(be32(high_a), be32(high_b), k)) by {
                assert forall|j: int| 0 <= j < k implies be32(high_a)[j] == be32(high_b)[j] by {
                    assert(x[j] == y[j]);
                }
            }
        } else {
            assert(be32(high_a) =~= be32(high_b)) by {
                assert forall|j: int| 0 <= j < 4 implies be32(high_a)[j] == be32(high_b)[j] by {
                    assert(x[j] == y[j]);
                }
            }
            assert(lex_lt_at(be32(low_a), be32(low_b), k - 4)) by {
                assert forall|j: int| 0 <= j < k - 4 implies be32(low_a)[j] == be32(low_b)[j] by {
                    assert(x[j + 4] == y[j + 4]);
                }
                assert(x[(k - 4) + 4] == be32(low_a)[k - 4]);
                assert(y[(k - 4) + 4] == be32(low_b)[k - 4]);
            }
        }
    }
}

/// The ranges of locks are stored as the bytes that they hold, those for writing as such.
pub proof fn lemma_stored_bytes(pieces: Seq<Piece>, i: int, byte: int)
    requires
        0 <= i < pieces.len(),
        pieces[i].range.end matches Some(end) ==> pieces[i].range.start < end,
    ensures
        stable_ranges(pieces).len() == pieces.len(),
        range_holds(stable_ranges(pieces)[i], byte) <==> pieces[i].range.start <= byte && (pieces[i].range.end matches Some(
            end,
        ) ==> byte < end),
        stable_ranges(pieces)[i].write <==> pieces[i].access == LockAccess::Write,
{
}

/// Of two byte strings that agree before a place, one comes before the other, or they are the same.
proof fn lemma_lex_from(a: Seq<u8>, b: Seq<u8>, k: int)
    requires
        0 <= k <= a.len(),
        k <= b.len(),
        forall|j: int| 0 <= j < k ==> a[j] == b[j],
    ensures
        a == b || lex_lt(a, b) || lex_lt(b, a),
    decreases a.len() - k,
{
    if k == a.len() && k == b.len() {
        assert(a =~= b);
    } else if k == a.len() {
        assert(lex_lt_at(a, b, k));
    } else if k == b.len() {
        assert(lex_lt_at(b, a, k));
    } else if a[k] < b[k] {
        assert(lex_lt_at(a, b, k));
    } else if b[k] < a[k] {
        assert(lex_lt_at(b, a, k));
    } else {
        lemma_lex_from(a, b, k + 1);
    }
}

/// What comes before something comes before all that does not.
proof fn lemma_lex_before(a: Seq<u8>, b: Seq<u8>, c: Seq<u8>)
    requires
        lex_lt(a, b),
        !lex_lt(c, b),
    ensures
        lex_lt(a, c),
{
    lemma_lex_from(b, c, 0);
    if b != c {
        lemma_lex_transitive(a, b, c);
    }
}

/// The place of a key among keys in order: behind those that it does not come before, and in front of the others.
proof fn lemma_place_of_key(records: Seq<StableRecordView>, key: Seq<u8>, n: nat)
    requires
        n <= records.len(),
        forall|i: int, j: int|
            0 <= i < j < records.len() ==> !lex_lt((#[trigger] records[j]).key.flat(), (#[trigger] records[i]).key.flat()),
    ensures
        upper_place(records, key, n) <= n,
        forall|i: int|
            0 <= i < upper_place(records, key, n) ==> !lex_lt(key, (#[trigger] records[i]).key.flat()),
        forall|i: int| upper_place(records, key, n) <= i < n ==> lex_lt(key, (#[trigger] records[i]).key.flat()),
    decreases n,
{
    if n > 0 {
        if lex_lt(key, records[n - 1].key.flat()) {
            lemma_place_of_key(records, key, (n - 1) as nat);
        } else {
            assert forall|i: int| 0 <= i < n implies !lex_lt(key, (#[trigger] records[i]).key.flat()) by {
                if i < n - 1 && lex_lt(key, records[i].key.flat()) {
                    lemma_lex_before(key, records[i].key.flat(), records[n - 1].key.flat());
                }
            }
        }
    }
}

/// The records of a snapshot come in the order of their keys.
pub proof fn lemma_records_ordered(records: Seq<StableRecordView>, n: nat)
    requires
        n <= records.len(),
    ensures
        sorted_records(records, n).len() == n,
        forall|i: int, j: int|
            0 <= i < j < n ==> !lex_lt(
                (#[trigger] sorted_records(records, n)[j]).key.flat(),
                (#[trigger] sorted_records(records, n)[i]).key.flat(),
            ),
    decreases n,
{
    if n > 0 {
        let rest = sorted_records(records, (n - 1) as nat);
        lemma_records_ordered(records, (n - 1) as nat);
        let key = records[n - 1].key.flat();
        lemma_place_of_key(rest, key, rest.len());
        let at = upper_place(rest, key, rest.len()) as int;
        let after = sorted_records(records, n);
        assert(after == rest.insert(at, records[n - 1]));
        assert forall|i: int, j: int| 0 <= i < j < n implies !lex_lt(
            (#[trigger] after[j]).key.flat(),
            (#[trigger] after[i]).key.flat(),
        ) by {
            if j == at {
                assert(after[i] == rest[i]);
            } else if i == at {
                assert(after[j] == rest[j - 1]);
                if lex_lt(rest[j - 1].key.flat(), key) {
                    lemma_lex_asymmetric(rest[j - 1].key.flat(), key);
                }
            } else {
                let p = if i < at {
                    i
                } else {
                    i - 1
                };
                let q = if j < at {
                    j
                } else {
                    j - 1
                };
                assert(after[i] == rest[p]);
                assert(after[j] == rest[q]);
            }
        }
    }
}

/// A snapshot that may move names the server that it comes from, its handle key, its run and what it was taken of, and its
/// records come in the order of their keys, no key twice. All that is left of them once revoked state is taken out may move.
pub proof fn lemma_snapshot_accepted(
    snapshot: SnapshotView,
    results: Seq<Transfer>,
    export_id: ExportId,
    limits: StableJournalLimits,
)
    requires
        snapshot_checked(snapshot, results, export_id, limits) is Ok,
    ensures
        exists|i: int| 0 <= i < snapshot.server_identity.len() && snapshot.server_identity[i] != 0,
        exists|i: int| 0 <= i < snapshot.handle_key.instance_id.len() && snapshot.handle_key.instance_id[i] != 0,
        exists|i: int| 0 <= i < snapshot.handle_key.secret.len() && snapshot.handle_key.secret[i] != 0,
        snapshot.source_generation != 0,
        snapshot.boot.boot_tag != 0,
        snapshot.boot.boot_tag != u32::MAX,
        sanitize_transfer(snapshot.records, results, limits) matches Ok((stable, typed)) && image_checked(typed, export_id)
            is Ok && stable.len() < limits.max_batch_mutations && stable.len() <= limits.max_records && forall|i: int|
            1 <= i < stable.len() ==> lex_lt(stable[i - 1].key.flat(), (#[trigger] stable[i]).key.flat()),
{
    reveal(snapshot_checked);
    reveal(sanitize_transfer);
}

/// An import goes together with what is stored: among all records of both no two states are one, every lock has its open,
/// and delegations of one object that are not both to read, or are of one client, are refused.
pub proof fn lemma_import_together(
    current: Seq<StableRecordView>,
    imported: Seq<StableRecordView>,
    limits: StableJournalLimits,
    stable: Seq<StableRecordView>,
    typed: Seq<TypedView>,
    added: Seq<TypedView>,
    i: int,
    j: int,
)
    requires
        import_projection(current, imported, limits) is Ok,
        sanitize_transfer(imported, checked(imported, limits), limits) == Ok::<
            (Seq<StableRecordView>, Seq<TypedView>),
            StableJournalError,
        >((stable, typed)),
        import_added(image_of(current, current.len()), stable, typed, stable.len()) == Ok::<
            Seq<TypedView>,
            StableJournalError,
        >(added),
        0 <= i < (decode_image(current, limits)->Ok_0.records + added).len(),
        0 <= j < (decode_image(current, limits)->Ok_0.records + added).len(),
    ensures
        import_projection(current, imported, limits) == Ok::<nat, StableJournalError>(added.len()),
        ({
            let all = decode_image(current, limits)->Ok_0.records + added;
            &&& i != j && identity_in(all[i].1) is Some ==> identity_in(all[i].1) != identity_in(all[j].1)
            &&& all[i].1 matches RecordView::Lock(lock) ==> exists|k: int|
                0 <= k < all.len() && #[trigger] holds_lock(all[k].1, lock)
            &&& (all[i].1 matches RecordView::Delegation(one) && all[j].1 matches RecordView::Delegation(two) && i != j
                && one.object.export_id == two.object.export_id && one.persistent_object_id == two.persistent_object_id)
                ==> !(all[i].1->Delegation_0).write && !(all[j].1->Delegation_0).write && (
            all[i].1->Delegation_0).client_id != (all[j].1->Delegation_0).client_id
        }),
{
    let all = decode_image(current, limits)->Ok_0.records + added;
    assert(active_identity(all[i].1) == identity_in(all[i].1));
    assert(active_identity(all[j].1) == identity_in(all[j].1));
    lemma_ancestries(all, all.len());
    lemma_ownerships(all, all.len());
    assert(ancestry_at(all, i) is Ok);
    if let RecordView::Lock(lock) = all[i].1 {
        let k = choose|k: int| is_ancestor(all, k, lock);
        assert(holds_lock(all[k].1, lock));
    }
    assert(ownership_at(all, i) is Ok);
    assert(ownership_at(all, j) is Ok);
    if i < j {
        assert(all[i].1 is Delegation && all[j].1 is Delegation ==> !delegations_conflict(all, i, j));
    } else if j < i {
        assert(all[i].1 is Delegation && all[j].1 is Delegation ==> !delegations_conflict(all, j, i));
    }
}

} // verus!
