//! What a set of records must satisfy as a whole: state identities, lock ancestry, delegation
//! ownership, and the records that a migration carries.

use vstd::prelude::*;

use crate::bytemap::ByteMap;
use crate::bytes::{array_equal, bytes_equal};
use crate::check::{boot_checked, identities_set};
use crate::codec::{be32, be64, BinaryEncoder, ExportId};
use crate::error::StableJournalError;
use crate::limits::StableJournalLimits;
use crate::record::{
    BootView, CapsuleView, ClientRecord, DelegationRecord, DelegationView, HandleKeyView, JournalKey, JournalRecord,
    KeyView, LockView, RecordView, StableRecordView,
};

verus! {

/// A typed key with its typed record.
pub type TypedView = (KeyView, RecordView);

/// The typed form of a transferred record, or why it has none.
pub type Transfer = Result<TypedView, StableJournalError>;

/// What a list of typed records stands for.
pub open spec fn typed_views(records: Seq<(JournalKey, JournalRecord)>) -> Seq<TypedView> {
    Seq::new(records.len(), |i: int| (records[i].0@, records[i].1@))
}

/// The part of a state token that names the state object; the part before it is a sequence number.
pub open spec fn state_identity(token: Seq<u8>) -> Seq<u8> {
    token.skip(4)
}

/// The identity of the state object that a record stands for, where it is an active state.
pub open spec fn active_identity(record: RecordView) -> Option<Seq<u8>> {
    match record {
        RecordView::Open(r) => Some(state_identity(r.state_token)),
        RecordView::Lock(r) => Some(state_identity(r.state_token)),
        RecordView::Delegation(r) => Some(state_identity(r.state_token)),
        _ => None,
    }
}

/// No two active states have the same identity, whatever their kinds and sequence numbers.
pub open spec fn identities_distinct(records: Seq<TypedView>) -> bool {
    forall|i: int, j: int|
        0 <= i < j < records.len() && active_identity(#[trigger] records[i].1) is Some ==> active_identity(
            records[i].1,
        ) != active_identity(#[trigger] records[j].1)
}

/// Record `i` is the open state of that identity.
pub open spec fn is_open_state(records: Seq<TypedView>, i: int, identity: Seq<u8>) -> bool {
    &&& 0 <= i < records.len()
    &&& records[i].1 is Open
    &&& active_identity(records[i].1) == Some(identity)
}

/// Record `i` is the open state that a lock hangs on: the named identity, of the lock's client and object.
pub open spec fn is_ancestor(records: Seq<TypedView>, i: int, lock: LockView) -> bool {
    &&& is_open_state(records, i, state_identity(lock.open_state_token))
    &&& records[i].1->Open_0.client_id == lock.client_id
    &&& records[i].1->Open_0.object == lock.object
}

/// What is wrong with the lock at position `i`, if it is one: no open state, or another client's or object's.
pub open spec fn ancestry_at(records: Seq<TypedView>, i: int) -> Result<(), StableJournalError> {
    match records[i].1 {
        RecordView::Lock(lock) => {
            let identity = state_identity(lock.open_state_token);
            if !exists|j: int| is_open_state(records, j, identity) {
                Err(StableJournalError::Corrupt("stable lock is missing its open state"))
            } else if !exists|j: int| is_ancestor(records, j, lock) {
                Err(StableJournalError::Corrupt("stable lock does not match its open state"))
            } else {
                Ok(())
            }
        },
        _ => Ok(()),
    }
}

/// The first fault among the first `n` locks.
pub open spec fn ancestry_checked(records: Seq<TypedView>, n: nat) -> Result<(), StableJournalError>
    decreases n,
{
    if n == 0 {
        Ok(())
    } else {
        match ancestry_checked(records, (n - 1) as nat) {
            Err(e) => Err(e),
            Ok(_) => ancestry_at(records, n - 1),
        }
    }
}

/// Active states have distinct identities, and each lock hangs on an open state of its client and object.
pub open spec fn states_checked(records: Seq<TypedView>) -> Result<(), StableJournalError> {
    if !identities_distinct(records) {
        Err(StableJournalError::Corrupt("duplicate stable state object identity"))
    } else {
        ancestry_checked(records, records.len())
    }
}

/// A fault among the first locks is a fault of them all.
proof fn lemma_ancestry_fault(records: Seq<TypedView>, n: nat, m: nat)
    requires
        n <= m,
        ancestry_checked(records, n) is Err,
    ensures
        ancestry_checked(records, m) == ancestry_checked(records, n),
    decreases m - n,
{
    if n < m {
        lemma_ancestry_fault(records, n, (m - 1) as nat);
    }
}

/// The identity part of a state token.
pub fn stable_state_identity(state_token: &[u8; 16]) -> (identity: Vec<u8>)
    ensures
        identity@ == state_identity(state_token@),
{
    let part = vstd::slice::slice_subrange(state_token.as_slice(), 4, 16);
    assert(part@ =~= state_identity(state_token@));
    crate::bytes::copy_bytes(part)
}

/// Checks the identities and the ancestry of the active states.
pub fn validate_active_state_identities(records: &Vec<(JournalKey, JournalRecord)>) -> (done: Result<
    (),
    StableJournalError,
>)
    ensures
        done == states_checked(typed_views(records@)),
{
    let ghost views = typed_views(records@);
    let mut states: ByteMap<usize> = ByteMap::new();
    let mut i: usize = 0;
    while i < records.len()
        invariant
            i <= records.len(),
            views == typed_views(records@),
            forall|k: Seq<u8>| #[trigger]
                states@.contains_key(k) ==> states@[k] < i && active_identity(views[states@[k] as int].1) == Some(k),
            forall|j: int|
                0 <= j < i && active_identity((#[trigger] views[j]).1) is Some ==> states@.contains_key(
                    active_identity(views[j].1)->0,
                ) && states@[active_identity(views[j].1)->0] == j,
            forall|a: int, b: int|
                0 <= a < b < i && active_identity(#[trigger] views[a].1) is Some ==> active_identity(views[a].1)
                    != active_identity(#[trigger] views[b].1),
        decreases records.len() - i,
    {
        let token: Option<Vec<u8>> = match &records[i].1 {
            JournalRecord::Open(r) => Some(stable_state_identity(&r.state_token)),
            JournalRecord::Lock(r) => Some(stable_state_identity(&r.state_token)),
            JournalRecord::Delegation(r) => Some(stable_state_identity(&r.state_token)),
            _ => None,
        };
        if let Some(identity) = token {
            let ghost key = identity@;
            let ghost before = states@;
            if let Some(_) = states.insert(identity, i) {
                proof {
                    let j = before[key] as int;
                    assert(active_identity(views[j].1) == Some(key));
                    assert(active_identity(views[i as int].1) == Some(key));
                    assert(!identities_distinct(views));
                }
                return Err(StableJournalError::Corrupt("duplicate stable state object identity"));
            }
            proof {
                assert forall|a: int| 0 <= a < i && active_identity(#[trigger] views[a].1) is Some implies active_identity(
                    views[a].1,
                ) != Some(key) by {
                    if active_identity(views[a].1) == Some(key) {
                        assert(before.contains_key(key));
                    }
                }
            }
        }
        i += 1;
    }
    assert(identities_distinct(views));
    let mut n: usize = 0;
    while n < records.len()
        invariant
            n <= records.len(),
            views == typed_views(records@),
            identities_distinct(views),
            ancestry_checked(views, n as nat) is Ok,
            forall|k: Seq<u8>| #[trigger]
                states@.contains_key(k) ==> states@[k] < records.len() && active_identity(views[states@[k] as int].1)
                    == Some(k),
            forall|j: int|
                0 <= j < records.len() && active_identity((#[trigger] views[j]).1) is Some ==> states@.contains_key(
                    active_identity(views[j].1)->0,
                ) && states@[active_identity(views[j].1)->0] == j,
        decreases records.len() - n,
    {
        if let JournalRecord::Lock(lock) = &records[n].1 {
            let identity = stable_state_identity(&lock.open_state_token);
            let ghost key = identity@;
            let ghost lock_view = views[n as int].1->Lock_0;
            assert(views[n as int].1 == RecordView::Lock(lock@));
            let found: Option<usize> = match states.get(identity.as_slice()) {
                Some(at) => Some(*at),
                None => None,
            };
            let mut missing = true;
            let mut mismatch = true;
            if let Some(at) = found {
                if let JournalRecord::Open(open) = &records[at].1 {
                    missing = false;
                    assert(views[at as int].1 == RecordView::Open(open@));
                    assert(is_open_state(views, at as int, key));
                    if open.client_id == lock.client_id && open.object == lock.object {
                        mismatch = false;
                    }
                }
            }
            proof {
                assert forall|j: int| is_open_state(views, j, key) implies found == Some(j as usize) by {
                    assert(active_identity(views[j].1) is Some);
                    assert(states@.contains_key(key));
                }
                assert forall|j: int| is_ancestor(views, j, lock_view) implies is_open_state(views, j, key) by {}
                if !missing && !mismatch {
                    assert(is_ancestor(views, found->0 as int, lock_view));
                }
                if !missing && mismatch {
                    assert(is_open_state(views, found->0 as int, key));
                    assert forall|j: int| !is_ancestor(views, j, lock_view) by {
                        if is_ancestor(views, j, lock_view) {
                            assert(is_open_state(views, j, key));
                            assert(j == found->0 as int);
                        }
                    }
                    assert(key == state_identity(lock_view.open_state_token));
                    assert(is_open_state(views, found->0 as int, state_identity(lock_view.open_state_token)));
                    assert(ancestry_at(views, n as int) == Err::<(), StableJournalError>(
                        StableJournalError::Corrupt("stable lock does not match its open state"),
                    ));
                    assert(ancestry_checked(views, (n + 1) as nat) == ancestry_at(views, n as int));
                }
                if missing || mismatch {
                    lemma_ancestry_fault(views, (n + 1) as nat, views.len());
                }
            }
            if missing {
                return Err(StableJournalError::Corrupt("stable lock is missing its open state"));
            }
            if mismatch {
                return Err(StableJournalError::Corrupt("stable lock does not match its open state"));
            }
        }
        n += 1;
    }
    Ok(())
}

/// A confirmed client of that id.
pub open spec fn confirmed_as(record: RecordView, client_id: u64) -> bool {
    record matches RecordView::Client(client) && client.confirmed && client.client_id == client_id
}

/// The position of the last confirmed record of a client among the first `n`.
pub open spec fn confirmed_at(records: Seq<TypedView>, client_id: u64, n: nat) -> Option<int>
    decreases n,
{
    if n == 0 {
        None
    } else if confirmed_as(records[n - 1].1, client_id) {
        Some(n - 1)
    } else {
        confirmed_at(records, client_id, (n - 1) as nat)
    }
}

/// The canonical identity behind a client id: its owner, verifier and principal.
pub open spec fn canonical_identity(records: Seq<TypedView>, client_id: u64) -> Option<(Seq<u8>, Seq<u8>, Seq<u8>)> {
    match confirmed_at(records, client_id, records.len()) {
        Some(at) => {
            let client = records[at].1->Client_0;
            Some((client.owner, client.verifier, client.canonical_principal))
        },
        None => None,
    }
}

/// Two delegations of the same exported object.
pub open spec fn same_delegated(a: DelegationView, b: DelegationView) -> bool {
    a.object.export_id == b.object.export_id && a.persistent_object_id == b.persistent_object_id
}

/// The delegation at `j` keeps the one at `i` from being held: one identity may hold an object once, and a
/// write delegation must be the only one.
pub open spec fn delegations_conflict(records: Seq<TypedView>, j: int, i: int) -> bool {
    &&& records[j].1 is Delegation
    &&& same_delegated(records[j].1->Delegation_0, records[i].1->Delegation_0)
    &&& {
        ||| canonical_identity(records, records[j].1->Delegation_0.client_id) == canonical_identity(
            records,
            records[i].1->Delegation_0.client_id,
        )
        ||| records[i].1->Delegation_0.write
        ||| records[j].1->Delegation_0.write
    }
}

/// What is wrong with the delegation at position `i`, if it is one.
pub open spec fn ownership_at(records: Seq<TypedView>, i: int) -> Result<(), StableJournalError> {
    match records[i].1 {
        RecordView::Delegation(delegation) => if canonical_identity(records, delegation.client_id) is None {
            Err(StableJournalError::Corrupt("stable delegation is missing a confirmed client"))
        } else if exists|j: int| 0 <= j < i && #[trigger] delegations_conflict(records, j, i) {
            Err(StableJournalError::Corrupt("conflicting stable delegation ownership graph"))
        } else {
            Ok(())
        },
        _ => Ok(()),
    }
}

/// The first fault among the first `n` delegations.
pub open spec fn ownership_checked(records: Seq<TypedView>, n: nat) -> Result<(), StableJournalError>
    decreases n,
{
    if n == 0 {
        Ok(())
    } else {
        match ownership_checked(records, (n - 1) as nat) {
            Err(e) => Err(e),
            Ok(_) => ownership_at(records, n - 1),
        }
    }
}

/// A fault among the first delegations is a fault of them all.
proof fn lemma_ownership_fault(records: Seq<TypedView>, n: nat, m: nat)
    requires
        n <= m,
        ownership_checked(records, n) is Err,
    ensures
        ownership_checked(records, m) == ownership_checked(records, n),
    decreases m - n,
{
    if n < m {
        lemma_ownership_fault(records, n, (m - 1) as nat);
    }
}

/// The bytes of a number as a map key.
pub fn number_key(value: u64) -> (key: Vec<u8>)
    ensures
        key@ == be64(value),
{
    let mut encoder = BinaryEncoder::new();
    encoder.u64(value);
    let key = encoder.finish();
    assert(key@ =~= be64(value));
    key
}

/// Distinct numbers have distinct bytes.
pub proof fn lemma_number_key(a: u64, b: u64)
    ensures
        be64(a) == be64(b) <==> a == b,
{
    crate::codec::lemma_be64(a, seq![]);
    crate::codec::lemma_be64(b, seq![]);
}

/// The map key of a delegated object.
spec fn delegated_key(d: DelegationView) -> Seq<u8> {
    be32(d.object.export_id.0) + d.persistent_object_id
}

/// Two delegations have the same key where they are of the same object.
proof fn lemma_delegated_key(a: DelegationView, b: DelegationView)
    ensures
        delegated_key(a) == delegated_key(b) <==> same_delegated(a, b),
{
    crate::codec::lemma_be32(a.object.export_id.0, seq![]);
    crate::codec::lemma_be32(b.object.export_id.0, seq![]);
    if delegated_key(a) == delegated_key(b) {
        assert(delegated_key(a).take(4) =~= be32(a.object.export_id.0));
        assert(delegated_key(b).take(4) =~= be32(b.object.export_id.0));
        assert(delegated_key(a).skip(4) =~= a.persistent_object_id);
        assert(delegated_key(b).skip(4) =~= b.persistent_object_id);
    }
}

/// The map key of a delegated object.
fn delegated_object_key(d: &DelegationRecord) -> (key: Vec<u8>)
    ensures
        key@ == delegated_key(d@),
{
    let mut encoder = BinaryEncoder::new();
    encoder.u32(d.object.export_id.0);
    encoder.fixed(d.persistent_object_id.as_slice());
    let key = encoder.finish();
    assert(key@ =~= delegated_key(d@));
    key
}

/// The map holds, for every client with a confirmed record, the position of the last one.
spec fn clients_indexed(views: Seq<TypedView>, clients: Map<Seq<u8>, usize>, n: nat) -> bool {
    forall|id: u64|
        match #[trigger] confirmed_at(views, id, n) {
            Some(at) => clients.contains_key(be64(id)) && clients[be64(id)] == at,
            None => !clients.contains_key(be64(id)),
        }
}

/// A position found for a client holds a confirmed record of it.
proof fn lemma_confirmed_at(views: Seq<TypedView>, id: u64, n: nat)
    requires
        n <= views.len(),
    ensures
        match confirmed_at(views, id, n) {
            Some(at) => 0 <= at < n && confirmed_as(views[at].1, id),
            None => forall|j: int| 0 <= j < n ==> !confirmed_as(#[trigger] views[j].1, id),
        },
    decreases n,
{
    if n > 0 {
        lemma_confirmed_at(views, id, (n - 1) as nat);
    }
}

/// The positions of the last confirmed record of each client.
fn index_clients(records: &Vec<(JournalKey, JournalRecord)>) -> (clients: ByteMap<usize>)
    ensures
        clients_indexed(typed_views(records@), clients@, records@.len()),
{
    let ghost views = typed_views(records@);
    let mut clients: ByteMap<usize> = ByteMap::new();
    let mut i: usize = 0;
    while i < records.len()
        invariant
            i <= records.len(),
            views == typed_views(records@),
            clients_indexed(views, clients@, i as nat),
        decreases records.len() - i,
    {
        let ghost before = clients@;
        let mut confirmed: Option<u64> = None;
        if let JournalRecord::Client(client) = &records[i].1 {
            assert(views[i as int].1 == RecordView::Client(client@));
            if client.confirmed {
                confirmed = Some(client.client_id);
            }
        }
        if let Some(id) = confirmed {
            let _ = clients.insert(number_key(id), i);
        }
        proof {
            assert forall|id: u64|
                match #[trigger] confirmed_at(views, id, (i + 1) as nat) {
                    Some(at) => clients@.contains_key(be64(id)) && clients@[be64(id)] == at,
                    None => !clients@.contains_key(be64(id)),
                } by {
                assert(match confirmed_at(views, id, i as nat) {
                    Some(at) => before.contains_key(be64(id)) && before[be64(id)] == at,
                    None => !before.contains_key(be64(id)),
                });
                if let Some(other) = confirmed {
                    lemma_number_key(id, other);
                }
            }
        }
        i += 1;
    }
    clients
}

/// The client record at a position.
fn client_at(records: &Vec<(JournalKey, JournalRecord)>, at: usize) -> (client: &ClientRecord)
    requires
        at < records@.len(),
        records@[at as int].1 is Client,
    ensures
        *client == records@[at as int].1->Client_0,
{
    match &records[at].1 {
        JournalRecord::Client(client) => client,
        _ => {
            assert(false);
            vstd::pervasive::unreached()
        },
    }
}

/// The delegation record at a position.
fn delegation_at(records: &Vec<(JournalKey, JournalRecord)>, at: usize) -> (delegation: &DelegationRecord)
    requires
        at < records@.len(),
        records@[at as int].1 is Delegation,
    ensures
        *delegation == records@[at as int].1->Delegation_0,
{
    match &records[at].1 {
        JournalRecord::Delegation(delegation) => delegation,
        _ => {
            assert(false);
            vstd::pervasive::unreached()
        },
    }
}

/// The groups list exactly the delegations before `n`, by object.
spec fn groups_indexed(views: Seq<TypedView>, groups: Map<Seq<u8>, Vec<usize>>, n: nat) -> bool {
    &&& forall|k: Seq<u8>, m: int|
        groups.contains_key(k) && 0 <= m < groups[k]@.len() ==> {
            let at = #[trigger] groups[k]@[m] as int;
            at < n && views[at].1 is Delegation && delegated_key(views[at].1->Delegation_0) == k
        }
    &&& forall|j: int|
        0 <= j < n && (#[trigger] views[j]).1 is Delegation ==> groups.contains_key(
            delegated_key(views[j].1->Delegation_0),
        ) && groups[delegated_key(views[j].1->Delegation_0)]@.contains(j as usize)
}

/// Checks who holds which delegation.
pub fn validate_durable_delegation_graph(records: &Vec<(JournalKey, JournalRecord)>) -> (done: Result<
    (),
    StableJournalError,
>)
    ensures
        done == ownership_checked(typed_views(records@), records@.len()),
{
    let ghost views = typed_views(records@);
    let clients = index_clients(records);
    let mut groups: ByteMap<Vec<usize>> = ByteMap::new();
    let mut i: usize = 0;
    while i < records.len()
        invariant
            i <= records.len(),
            views == typed_views(records@),
            clients_indexed(views, clients@, records@.len()),
            groups_indexed(views, groups@, i as nat),
            ownership_checked(views, i as nat) is Ok,
            forall|j: int|
                0 <= j < i && (#[trigger] views[j]).1 is Delegation ==> canonical_identity(
                    views,
                    views[j].1->Delegation_0.client_id,
                ) is Some,
        decreases records.len() - i,
    {
        if let JournalRecord::Delegation(delegation) = &records[i].1 {
            let ghost own = delegation@;
            assert(views[i as int].1 == RecordView::Delegation(own));
            assert(match confirmed_at(views, own.client_id, views.len()) {
                Some(at) => clients@.contains_key(be64(own.client_id)) && clients@[be64(own.client_id)] == at,
                None => !clients@.contains_key(be64(own.client_id)),
            });
            let holder: usize = match clients.get(number_key(delegation.client_id).as_slice()) {
                Some(at) => *at,
                None => {
                    proof {
                        lemma_ownership_fault(views, (i + 1) as nat, views.len());
                    }
                    return Err(StableJournalError::Corrupt("stable delegation is missing a confirmed client"));
                },
            };
            proof {
                lemma_confirmed_at(views, own.client_id, views.len());
            }
            let identity = client_at(records, holder);
            let key = delegated_object_key(delegation);
            let ghost key_view = key@;
            let ghost before = groups@;
            let mut members: Vec<usize> = match groups.remove(key.as_slice()) {
                Some(members) => members,
                None => Vec::new(),
            };
            let mut m: usize = 0;
            while m < members.len()
                invariant
                    m <= members.len(),
                    i < records.len(),
                    views == typed_views(records@),
                    clients_indexed(views, clients@, records@.len()),
                    views[i as int].1 == RecordView::Delegation(own),
                    own == delegation@,
                    key_view == delegated_key(own),
                    ownership_checked(views, i as nat) is Ok,
                    canonical_identity(views, own.client_id) == Some(
                        (identity@.owner, identity@.verifier, identity@.canonical_principal),
                    ),
                    forall|j: int|
                        0 <= j < i && (#[trigger] views[j]).1 is Delegation ==> canonical_identity(
                            views,
                            views[j].1->Delegation_0.client_id,
                        ) is Some,
                    forall|x: int|
                        0 <= x < members@.len() ==> {
                            let at = #[trigger] members@[x] as int;
                            at < i && views[at].1 is Delegation && delegated_key(views[at].1->Delegation_0) == key_view
                        },
                    forall|x: int|
                        0 <= x < m ==> !delegations_conflict(views, (#[trigger] members@[x]) as int, i as int),
                decreases members.len() - m,
            {
                let at: usize = members[m];
                assert(members@[m as int] == at);
                let other = delegation_at(records, at);
                let ghost other_view = other@;
                assert(views[at as int].1 == RecordView::Delegation(other_view));
                assert(match confirmed_at(views, other_view.client_id, views.len()) {
                    Some(p) => clients@.contains_key(be64(other_view.client_id)) && clients@[be64(
                        other_view.client_id,
                    )] == p,
                    None => !clients@.contains_key(be64(other_view.client_id)),
                });
                proof {
                    lemma_delegated_key(other_view, own);
                    lemma_confirmed_at(views, other_view.client_id, views.len());
                }
                let mut conflict = delegation.write || other.write;
                if let Some(place) = clients.get(number_key(other.client_id).as_slice()) {
                    let held = client_at(records, *place);
                    if bytes_equal(held.owner.as_slice(), identity.owner.as_slice()) && array_equal(
                        &held.verifier,
                        &identity.verifier,
                    ) && bytes_equal(held.canonical_principal.as_slice(), identity.canonical_principal.as_slice()) {
                        conflict = true;
                    }
                }
                if conflict {
                    proof {
                        assert(delegations_conflict(views, at as int, i as int));
                        lemma_ownership_fault(views, (i + 1) as nat, views.len());
                    }
                    return Err(StableJournalError::Corrupt("conflicting stable delegation ownership graph"));
                }
                m += 1;
            }
            proof {
                assert forall|j: int| 0 <= j < i implies !(#[trigger] delegations_conflict(views, j, i as int)) by {
                    if delegations_conflict(views, j, i as int) {
                        lemma_delegated_key(views[j].1->Delegation_0, own);
                        assert(before.contains_key(key_view));
                        assert(before[key_view]@.contains(j as usize));
                        let x = before[key_view]@.index_of(j as usize);
                        assert(members@[x] == j as usize);
                    }
                }
                assert(ownership_at(views, i as int) is Ok);
            }
            let ghost grown = members@.push(i);
            members.push(i);
            let ghost full = members;
            let _ = groups.insert(key, members);
            proof {
                assert(groups@[key_view] == full);
                assert forall|j: int| 0 <= j < i + 1 && (#[trigger] views[j]).1 is Delegation implies groups@.contains_key(
                    delegated_key(views[j].1->Delegation_0),
                ) && groups@[delegated_key(views[j].1->Delegation_0)]@.contains(j as usize) by {
                    let k = delegated_key(views[j].1->Delegation_0);
                    if j == i {
                        assert(full@[full@.len() - 1] == i);
                    } else if k == key_view {
                        assert(before[k]@.contains(j as usize));
                        let x = before[k]@.index_of(j as usize);
                        assert(full@[x] == j as usize);
                    }
                }
            }
        }
        i += 1;
    }
    Ok(())
}

/// A record that an active image no longer carries: a revocation, a revoked delegation, or a delegation of a
/// client without a confirmed record.
pub open spec fn suppressed(record: RecordView, all: Seq<TypedView>) -> bool {
    match record {
        RecordView::Revocation(_) => true,
        RecordView::Delegation(delegation) => {
            ||| exists|i: int|
                0 <= i < all.len() && revokes((#[trigger] all[i]).1, delegation.state_token)
            ||| !exists|i: int| 0 <= i < all.len() && confirmed_as((#[trigger] all[i]).1, delegation.client_id)
        },
        _ => false,
    }
}

/// A revocation of that state.
pub open spec fn revokes(record: RecordView, token: Seq<u8>) -> bool {
    record matches RecordView::Revocation(revocation) && revocation.state_token == token
}

/// The typed records that stay, of the first `n`.
pub open spec fn retained(all: Seq<TypedView>, n: nat) -> Seq<TypedView>
    decreases n,
{
    if n == 0 {
        seq![]
    } else if suppressed(all[n - 1].1, all) {
        retained(all, (n - 1) as nat)
    } else {
        retained(all, (n - 1) as nat).push(all[n - 1])
    }
}

/// The keys of the records that go, of the first `n`.
pub open spec fn dropped_keys(all: Seq<TypedView>, n: nat) -> Seq<KeyView>
    decreases n,
{
    if n == 0 {
        seq![]
    } else if suppressed(all[n - 1].1, all) {
        dropped_keys(all, (n - 1) as nat).push(all[n - 1].0)
    } else {
        dropped_keys(all, (n - 1) as nat)
    }
}

/// The stored records whose typed form stays, of the first `n`.
pub open spec fn retained_stable(records: Seq<StableRecordView>, all: Seq<TypedView>, n: nat) -> Seq<StableRecordView>
    decreases n,
{
    if n == 0 {
        seq![]
    } else if suppressed(all[n - 1].1, all) {
        retained_stable(records, all, (n - 1) as nat)
    } else {
        retained_stable(records, all, (n - 1) as nat).push(records[n - 1])
    }
}

/// The revoked tokens and the confirmed clients of a list of records.
pub struct Suppression {
    pub revoked: ByteMap<()>,
    pub confirmed: ByteMap<()>,
}

/// The sets hold exactly what the first `n` records revoke and confirm.
pub open spec fn suppression_of(s: Suppression, all: Seq<TypedView>, n: nat) -> bool {
    &&& forall|token: Seq<u8>| #[trigger]
        s.revoked@.contains_key(token) <==> exists|i: int| 0 <= i < n && revokes((#[trigger] all[i]).1, token)
    &&& forall|id: u64| #[trigger]
        s.confirmed@.contains_key(be64(id)) <==> exists|i: int| 0 <= i < n && confirmed_as((#[trigger] all[i]).1, id)
}

/// The revoked tokens and the confirmed clients of a list of records.
pub(crate) fn suppression(records: &Vec<(JournalKey, JournalRecord)>) -> (s: Suppression)
    ensures
        suppression_of(s, typed_views(records@), records@.len()),
{
    let ghost all = typed_views(records@);
    let mut s = Suppression { revoked: ByteMap::new(), confirmed: ByteMap::new() };
    let mut i: usize = 0;
    while i < records.len()
        invariant
            i <= records.len(),
            all == typed_views(records@),
            suppression_of(s, all, i as nat),
        decreases records.len() - i,
    {
        let ghost before = s;
        match &records[i].1 {
            JournalRecord::Revocation(r) => {
                let token = crate::bytes::copy_bytes(r.state_token.as_slice());
                let _ = s.revoked.insert(token, ());
                assert(all[i as int].1 == RecordView::Revocation(r@));
            },
            JournalRecord::Client(r) => {
                if r.confirmed {
                    let _ = s.confirmed.insert(number_key(r.client_id), ());
                }
                assert(all[i as int].1 == RecordView::Client(r@));
            },
            _ => {},
        }
        proof {
            let record = all[i as int].1;
            assert forall|token: Seq<u8>| #[trigger] s.revoked@.contains_key(token) <==> exists|j: int|
                0 <= j < i + 1 && revokes((#[trigger] all[j]).1, token) by {
                if revokes(record, token) {
                    assert(revokes(all[i as int].1, token));
                }
                if before.revoked@.contains_key(token) {
                    let j = choose|j: int| 0 <= j < i && revokes((#[trigger] all[j]).1, token);
                    assert(0 <= j < i + 1 && revokes(all[j].1, token));
                }
            }
            assert forall|id: u64| #[trigger] s.confirmed@.contains_key(be64(id)) <==> exists|j: int|
                0 <= j < i + 1 && confirmed_as((#[trigger] all[j]).1, id) by {
                if let RecordView::Client(client) = record {
                    lemma_number_key(id, client.client_id);
                }
                if confirmed_as(record, id) {
                    assert(confirmed_as(all[i as int].1, id));
                }
                if before.confirmed@.contains_key(be64(id)) {
                    let j = choose|j: int| 0 <= j < i && confirmed_as((#[trigger] all[j]).1, id);
                    assert(0 <= j < i + 1 && confirmed_as(all[j].1, id));
                }
            }
        }
        i += 1;
    }
    s
}

/// Whether an active image no longer carries a record.
pub(crate) fn legacy_record_is_suppressed(record: &JournalRecord, s: &Suppression, all: Ghost<Seq<TypedView>>) -> (gone: bool)
    requires
        suppression_of(*s, all@, all@.len()),
    ensures
        gone == suppressed(record@, all@),
{
    match record {
        JournalRecord::Revocation(_) => true,
        JournalRecord::Delegation(delegation) => {
            let revoked = s.revoked.contains(delegation.state_token.as_slice());
            let confirmed = s.confirmed.contains(number_key(delegation.client_id).as_slice());
            revoked || !confirmed
        },
        _ => false,
    }
}

/// Parts a list of records into those that stay and the keys of those that go.
pub fn sanitize_typed_records(records: Vec<(JournalKey, JournalRecord)>) -> (parts: (
    Vec<(JournalKey, JournalRecord)>,
    Vec<JournalKey>,
))
    ensures
        typed_views(parts.0@) == retained(typed_views(records@), records@.len()),
        parts.1@.len() == dropped_keys(typed_views(records@), records@.len()).len(),
        forall|i: int|
            0 <= i < parts.1@.len() ==> (#[trigger] parts.1@[i])@ == dropped_keys(
                typed_views(records@),
                records@.len(),
            )[i],
{
    let ghost all = typed_views(records@);
    let s = suppression(&records);
    let mut kept: Vec<(JournalKey, JournalRecord)> = Vec::new();
    let mut removed: Vec<JournalKey> = Vec::new();
    let mut i: usize = 0;
    while i < records.len()
        invariant
            i <= records.len(),
            all == typed_views(records@),
            suppression_of(s, all, all.len()),
            typed_views(kept@) == retained(all, i as nat),
            removed@.len() == dropped_keys(all, i as nat).len(),
            forall|j: int| 0 <= j < removed@.len() ==> (#[trigger] removed@[j])@ == dropped_keys(all, i as nat)[j],
        decreases records.len() - i,
    {
        let (key, record) = &records[i];
        if legacy_record_is_suppressed(record, &s, Ghost(all)) {
            removed.push(key.copy());
        } else {
            let ghost before = kept@;
            kept.push((key.copy(), record.copy()));
            assert(typed_views(kept@) =~= typed_views(before).push(all[i as int]));
        }
        i += 1;
    }
    (kept, removed)
}

/// The typed forms of the first `n` transferred records; no key may occur twice.
pub open spec fn transfer_typed(records: Seq<StableRecordView>, results: Seq<Transfer>, n: nat) -> Result<
    Seq<TypedView>,
    StableJournalError,
>
    decreases n,
{
    if n == 0 {
        Ok(seq![])
    } else {
        match transfer_typed(records, results, (n - 1) as nat) {
            Err(e) => Err(e),
            Ok(done) => if exists|j: int| 0 <= j < n - 1 && (#[trigger] records[j]).key == records[n - 1].key {
                Err(StableJournalError::Corrupt("duplicate migrated stable key"))
            } else {
                match results[n - 1] {
                    Err(e) => Err(e),
                    Ok(typed) => Ok(done.push(typed)),
                }
            },
        }
    }
}

/// A fault among the first records is a fault of them all.
pub proof fn lemma_transfer_fault(records: Seq<StableRecordView>, results: Seq<Transfer>, n: nat, m: nat)
    requires
        n <= m,
        transfer_typed(records, results, n) is Err,
    ensures
        transfer_typed(records, results, m) == transfer_typed(records, results, n),
    decreases m - n,
{
    if n < m {
        lemma_transfer_fault(records, results, n, (m - 1) as nat);
    }
}

/// The records of a transfer that stay, stored and typed, or why the transfer is refused.
#[verifier::opaque]
pub open spec fn sanitize_transfer(
    records: Seq<StableRecordView>,
    results: Seq<Transfer>,
    limits: StableJournalLimits,
) -> Result<(Seq<StableRecordView>, Seq<TypedView>), StableJournalError> {
    match transfer_typed(records, results, records.len()) {
        Err(e) => Err(e),
        Ok(all) => {
            let stable = retained_stable(records, all, records.len());
            if stable.len() > limits.max_records {
                Err(StableJournalError::LimitExceeded("migration record count"))
            } else {
                Ok((stable, retained(all, records.len())))
            }
        },
    }
}

/// The protocol state of one export at one moment.
#[verifier::ext_equal]
pub struct SnapshotView {
    pub source_generation: u64,
    pub server_identity: Seq<u8>,
    pub boot: BootView,
    pub handle_key: HandleKeyView,
    pub records: Seq<StableRecordView>,
}

/// Keys in strictly increasing order: by class, then by bytes.
pub open spec fn canonical_order(records: Seq<StableRecordView>) -> bool {
    forall|i: int|
        1 <= i < records.len() ==> crate::bytes::lex_lt(records[i - 1].key.flat(), (#[trigger] records[i]).key.flat())
}

/// The client that a migrated state record belongs to.
pub open spec fn state_client(record: RecordView) -> Option<u64> {
    match record {
        RecordView::Open(r) => Some(r.client_id),
        RecordView::Lock(r) => Some(r.client_id),
        RecordView::Delegation(r) => Some(r.client_id),
        RecordView::Replay(r) => Some(r.client_id),
        _ => None,
    }
}

/// What is wrong with one migrated record, if anything: another export's object, or a reserved record.
pub open spec fn export_at(record: RecordView, export_id: ExportId) -> Result<(), StableJournalError> {
    match record {
        RecordView::Client(_) => Ok(()),
        RecordView::Revocation(_) => Ok(()),
        RecordView::Open(r) => if r.object.export_id != export_id {
            Err(StableJournalError::MigrationExportMismatch)
        } else {
            Ok(())
        },
        RecordView::Lock(r) => if r.object.export_id != export_id {
            Err(StableJournalError::MigrationExportMismatch)
        } else {
            Ok(())
        },
        RecordView::Delegation(r) => if r.object.export_id != export_id {
            Err(StableJournalError::MigrationExportMismatch)
        } else {
            Ok(())
        },
        RecordView::Replay(r) => if r.current_object is Some && r.current_object->0.export_id != export_id {
            Err(StableJournalError::MigrationExportMismatch)
        } else {
            Ok(())
        },
        _ => Err(StableJournalError::Corrupt("reserved record in migration state")),
    }
}

/// The first fault among the first `n` migrated records.
pub open spec fn export_checked(records: Seq<TypedView>, export_id: ExportId, n: nat) -> Result<(), StableJournalError>
    decreases n,
{
    if n == 0 {
        Ok(())
    } else {
        match export_checked(records, export_id, (n - 1) as nat) {
            Err(e) => Err(e),
            Ok(_) => export_at(records[n - 1].1, export_id),
        }
    }
}

/// Every state record's client has a record too.
pub open spec fn clients_present(records: Seq<TypedView>) -> bool {
    forall|i: int|
        0 <= i < records.len() && state_client((#[trigger] records[i]).1) is Some ==> exists|j: int|
            0 <= j < records.len() && is_client((#[trigger] records[j]).1, state_client(records[i].1)->0)
}

/// A record of that client.
pub open spec fn is_client(record: RecordView, client_id: u64) -> bool {
    record matches RecordView::Client(client) && client.client_id == client_id
}

/// What is wrong with a migration snapshot, if anything.
#[verifier::opaque]
pub open spec fn snapshot_checked(
    snapshot: SnapshotView,
    results: Seq<Transfer>,
    export_id: ExportId,
    limits: StableJournalLimits,
) -> Result<(), StableJournalError> {
    if !identities_set(snapshot.server_identity, snapshot.handle_key) {
        Err(StableJournalError::Corrupt("invalid migration identity"))
    } else if snapshot.source_generation == 0 {
        Err(StableJournalError::Corrupt("zero migration source generation"))
    } else if boot_checked(snapshot.boot) is Err {
        boot_checked(snapshot.boot)
    } else {
        match sanitize_transfer(snapshot.records, results, limits) {
            Err(e) => Err(e),
            Ok((stable, typed)) => if !canonical_order(stable) {
                Err(StableJournalError::Corrupt("migration records are not in canonical order"))
            } else if stable.len() + 1 > limits.max_batch_mutations {
                Err(StableJournalError::LimitExceeded("migration record count"))
            } else {
                image_checked(typed, export_id)
            },
        }
    }
}

/// What is wrong with the typed image of a migration, if anything.
#[verifier::opaque]
pub open spec fn image_checked(typed: Seq<TypedView>, export_id: ExportId) -> Result<(), StableJournalError> {
    if export_checked(typed, export_id, typed.len()) is Err {
        export_checked(typed, export_id, typed.len())
    } else if states_checked(typed) is Err {
        states_checked(typed)
    } else if ownership_checked(typed, typed.len()) is Err {
        ownership_checked(typed, typed.len())
    } else if !clients_present(typed) {
        Err(StableJournalError::Corrupt("migrated state is missing a client record"))
    } else {
        Ok(())
    }
}

/// A fault among the first migrated records is a fault of them all.
proof fn lemma_export_fault(records: Seq<TypedView>, export_id: ExportId, n: nat, m: nat)
    requires
        n <= m,
        export_checked(records, export_id, n) is Err,
    ensures
        export_checked(records, export_id, m) == export_checked(records, export_id, n),
    decreases m - n,
{
    if n < m {
        lemma_export_fault(records, export_id, n, (m - 1) as nat);
    }
}

/// Checks the typed image of a migration.
pub fn validate_migration_image(typed: &Vec<(JournalKey, JournalRecord)>, export_id: ExportId) -> (done: Result<
    (),
    StableJournalError,
>)
    ensures
        done == image_checked(typed_views(typed@), export_id),
{
    proof {
        reveal(image_checked);
    }
    let ghost views = typed_views(typed@);
    let mut recorded: ByteMap<()> = ByteMap::new();
    let mut i: usize = 0;
    while i < typed.len()
        invariant
            i <= typed.len(),
            views == typed_views(typed@),
            export_checked(views, export_id, i as nat) is Ok,
            forall|id: u64| #[trigger]
                recorded@.contains_key(be64(id)) <==> exists|j: int| 0 <= j < i && is_client((#[trigger] views[j]).1, id),
        decreases typed.len() - i,
    {
        let ghost before = recorded@;
        let mut client: Option<u64> = None;
        let fault: Option<StableJournalError> = match &typed[i].1 {
            JournalRecord::Client(r) => {
                client = Some(r.client_id);
                None
            },
            JournalRecord::Revocation(_) => None,
            JournalRecord::Open(r) => if r.object.export_id != export_id {
                Some(StableJournalError::MigrationExportMismatch)
            } else {
                None
            },
            JournalRecord::Lock(r) => if r.object.export_id != export_id {
                Some(StableJournalError::MigrationExportMismatch)
            } else {
                None
            },
            JournalRecord::Delegation(r) => if r.object.export_id != export_id {
                Some(StableJournalError::MigrationExportMismatch)
            } else {
                None
            },
            JournalRecord::Replay(r) => match r.current_object {
                Some(object) => if object.export_id != export_id {
                    Some(StableJournalError::MigrationExportMismatch)
                } else {
                    None
                },
                None => None,
            },
            _ => Some(StableJournalError::Corrupt("reserved record in migration state")),
        };
        if let Some(e) = fault {
            proof {
                reveal(image_checked);
                lemma_export_fault(views, export_id, (i + 1) as nat, views.len());
            }
            return Err(e);
        }
        if let Some(id) = client {
            let _ = recorded.insert(number_key(id), ());
        }
        proof {
            assert forall|id: u64| #[trigger] recorded@.contains_key(be64(id)) <==> exists|j: int|
                0 <= j < i + 1 && is_client((#[trigger] views[j]).1, id) by {
                if let Some(other) = client {
                    lemma_number_key(id, other);
                }
                if is_client(views[i as int].1, id) {
                    assert(0 <= i < i + 1);
                }
                if before.contains_key(be64(id)) {
                    let j = choose|j: int| 0 <= j < i && is_client((#[trigger] views[j]).1, id);
                    assert(0 <= j < i + 1 && is_client(views[j].1, id));
                }
            }
        }
        i += 1;
    }
    match validate_active_state_identities(typed) {
        Err(e) => {
            return Err(e);
        },
        Ok(_) => {},
    }
    match validate_durable_delegation_graph(typed) {
        Err(e) => {
            return Err(e);
        },
        Ok(_) => {},
    }
    let mut n: usize = 0;
    while n < typed.len()
        invariant
            n <= typed.len(),
            views == typed_views(typed@),
            export_checked(views, export_id, views.len()) is Ok,
            states_checked(views) is Ok,
            ownership_checked(views, views.len()) is Ok,
            forall|id: u64| #[trigger]
                recorded@.contains_key(be64(id)) <==> exists|j: int|
                    0 <= j < views.len() && is_client((#[trigger] views[j]).1, id),
            forall|j: int|
                0 <= j < n && state_client((#[trigger] views[j]).1) is Some ==> recorded@.contains_key(
                    be64(state_client(views[j].1)->0),
                ),
        decreases typed.len() - n,
    {
        let client: Option<u64> = match &typed[n].1 {
            JournalRecord::Open(r) => Some(r.client_id),
            JournalRecord::Lock(r) => Some(r.client_id),
            JournalRecord::Delegation(r) => Some(r.client_id),
            JournalRecord::Replay(r) => Some(r.client_id),
            _ => None,
        };
        if let Some(id) = client {
            assert(state_client(views[n as int].1) == Some(id));
            if !recorded.contains(number_key(id).as_slice()) {
                proof {
                    reveal(image_checked);
                }
                assert(!clients_present(views));
                return Err(StableJournalError::Corrupt("migrated state is missing a client record"));
            }
        }
        n += 1;
    }
    assert(clients_present(views)) by {
        assert forall|x: int| 0 <= x < views.len() && state_client((#[trigger] views[x]).1) is Some implies exists|j: int|
            0 <= j < views.len() && is_client((#[trigger] views[j]).1, state_client(views[x].1)->0) by {
            assert(recorded@.contains_key(be64(state_client(views[x].1)->0)));
        }
    }
    Ok(())
}

/// The transaction that a capsule belongs to is named.
pub open spec fn transaction_set(capsule: CapsuleView) -> bool {
    !crate::check::all_zero(capsule.transfer_id) && !crate::check::all_zero(capsule.coordinator_token_digest)
        && !crate::check::all_zero(capsule.bundle_digest)
}

/// The snapshot that a capsule carries.
pub open spec fn capsule_snapshot(capsule: CapsuleView) -> SnapshotView {
    SnapshotView {
        source_generation: capsule.source_generation,
        server_identity: capsule.server_identity,
        boot: capsule.boot,
        handle_key: capsule.handle_key,
        records: capsule.records,
    }
}

/// What is wrong with a capsule as a whole, if anything.
#[verifier::opaque]
pub open spec fn capsule_valid(capsule: CapsuleView, results: Seq<Transfer>, limits: StableJournalLimits) -> Result<
    (),
    StableJournalError,
> {
    if !transaction_set(capsule) {
        Err(StableJournalError::Corrupt("invalid migration transaction identity"))
    } else {
        snapshot_checked(capsule_snapshot(capsule), results, capsule.export_id, limits)
    }
}

} // verus!
