//! Fenced commits: what a batch does to the live records, and how an uncertain outcome is settled.

use vstd::prelude::*;

use crate::bytemap::ByteMap;
use crate::bytes::{bytes_equal, copy_bytes};
use crate::error::{journal_error, StableJournalError, StableStateError};
use crate::limits::StableJournalLimits;
use crate::record::{record_views, StableKey, StableKeyView, StableRecord, StableRecordView};
use crate::snapshot::{image_of, keys_distinct, payloads, stable_record_map, StableSnapshot};

verus! {

/// One change of the store.
#[derive(Clone, Debug, PartialEq, Eq)]
pub enum StableMutation {
    Put { key: StableKey, payload: Vec<u8> },
    Delete { key: StableKey },
}

/// What a change of the store stands for.
#[verifier::ext_equal]
pub enum MutationView {
    Put { key: StableKeyView, payload: Seq<u8> },
    Delete { key: StableKeyView },
}

impl View for StableMutation {
    type V = MutationView;

    open spec fn view(&self) -> MutationView {
        match *self {
            StableMutation::Put { key, payload } => MutationView::Put { key: key@, payload: payload@ },
            StableMutation::Delete { key } => MutationView::Delete { key: key@ },
        }
    }
}

/// What a list of changes stands for.
pub open spec fn mutation_views(mutations: Seq<StableMutation>) -> Seq<MutationView> {
    Seq::new(mutations.len(), |i: int| mutations[i]@)
}

/// The key that a change is about.
pub open spec fn mutation_key(mutation: MutationView) -> Seq<u8> {
    match mutation {
        MutationView::Put { key, .. } => key.flat(),
        MutationView::Delete { key } => key.flat(),
    }
}

/// What a change leaves under its key.
pub open spec fn mutation_value(mutation: MutationView) -> Option<Seq<u8>> {
    match mutation {
        MutationView::Put { payload, .. } => Some(payload),
        MutationView::Delete { .. } => None,
    }
}

/// The records after a change.
pub open spec fn apply_mutation(live: Map<Seq<u8>, Seq<u8>>, mutation: MutationView) -> Map<Seq<u8>, Seq<u8>> {
    match mutation_value(mutation) {
        Some(payload) => live.insert(mutation_key(mutation), payload),
        None => live.remove(mutation_key(mutation)),
    }
}

/// The records after the first `n` changes, one after the other.
pub open spec fn apply_mutations(live: Map<Seq<u8>, Seq<u8>>, mutations: Seq<MutationView>, n: nat) -> Map<
    Seq<u8>,
    Seq<u8>,
>
    decreases n,
{
    if n == 0 {
        live
    } else {
        apply_mutation(apply_mutations(live, mutations, (n - 1) as nat), mutations[n - 1])
    }
}

/// The records with all updates laid over them at once.
pub open spec fn overlay(live: Map<Seq<u8>, Seq<u8>>, updates: Map<Seq<u8>, Option<Seq<u8>>>) -> Map<Seq<u8>, Seq<u8>> {
    Map::new(
        |k: Seq<u8>|
            if updates.contains_key(k) {
                updates[k] is Some
            } else {
                live.contains_key(k)
            },
        |k: Seq<u8>|
            if updates.contains_key(k) {
                updates[k]->0
            } else {
                live[k]
            },
    )
}

/// The number of live records never passes the bound, nor what the machine can count on the way.
pub open spec fn mutations_fit(live: Map<Seq<u8>, Seq<u8>>, mutations: Seq<MutationView>, max_records: usize) -> bool {
    &&& apply_mutations(live, mutations, mutations.len()).dom().len() <= max_records
    &&& forall|i: nat| i <= mutations.len() ==> (#[trigger] apply_mutations(live, mutations, i)).dom().len() <= usize::MAX
}

/// The update of each touched key.
pub type LiveRecordUpdates = ByteMap<Option<Vec<u8>>>;

/// The payloads behind a map of updates.
pub open spec fn updates_view(updates: Map<Seq<u8>, Option<Vec<u8>>>) -> Map<Seq<u8>, Option<Seq<u8>>> {
    updates.map_values(
        |v: Option<Vec<u8>>|
            match v {
                Some(payload) => Some(payload@),
                None => None::<Seq<u8>>,
            },
    )
}

/// The first `n` changes are about the key.
pub open spec fn mutated(mutations: Seq<MutationView>, n: nat, key: Seq<u8>) -> bool {
    exists|i: int| 0 <= i < n && mutation_key(#[trigger] mutations[i]) == key
}

/// The change is the last of the first `n` changes that is about its key.
pub open spec fn last_mutation(mutations: Seq<MutationView>, n: nat, at: int) -> bool {
    &&& 0 <= at < n
    &&& forall|j: int| at < j < n ==> mutation_key(#[trigger] mutations[j]) != mutation_key(mutations[at])
}

/// The updates are those of the keys that the first `n` changes are about, each as the last change leaves it.
pub open spec fn updates_planned(updates: Map<Seq<u8>, Option<Seq<u8>>>, mutations: Seq<MutationView>, n: nat) -> bool {
    &&& forall|key: Seq<u8>| #[trigger] updates.contains_key(key) <==> mutated(mutations, n, key)
    &&& forall|at: int| #[trigger]
        last_mutation(mutations, n, at) ==> updates[mutation_key(mutations[at])] == mutation_value(mutations[at])
}

/// The records after a number of changes stay a finite set.
proof fn lemma_apply_finite(live: Map<Seq<u8>, Seq<u8>>, mutations: Seq<MutationView>, n: nat)
    requires
        live.dom().finite(),
    ensures
        apply_mutations(live, mutations, n).dom().finite(),
    decreases n,
{
    if n > 0 {
        lemma_apply_finite(live, mutations, (n - 1) as nat);
    }
}

/// Collects the update of each touched key, and counts the records that will be live.
pub fn plan_live_record_updates(live: &ByteMap<Vec<u8>>, mutations: &Vec<StableMutation>, max_records: usize) -> (plan:
    Result<LiveRecordUpdates, StableJournalError>)
    ensures
        match plan {
            Ok(updates) => {
                &&& mutations_fit(payloads(live@), mutation_views(mutations@), max_records)
                &&& updates_planned(updates_view(updates@), mutation_views(mutations@), mutations@.len())
                &&& overlay(payloads(live@), updates_view(updates@)) == apply_mutations(
                    payloads(live@),
                    mutation_views(mutations@),
                    mutations@.len(),
                )
            },
            Err(e) => {
                &&& !mutations_fit(payloads(live@), mutation_views(mutations@), max_records)
                &&& e == StableJournalError::LimitExceeded("stable record count")
            },
        },
{
    let ghost base = payloads(live@);
    let ghost views = mutation_views(mutations@);
    let mut projected: usize = live.len();
    let mut updates: LiveRecordUpdates = ByteMap::new();
    proof {
        assert(base.dom() =~= live@.dom());
        assert(overlay(base, updates_view(updates@)) =~= base);
    }
    let mut i: usize = 0;
    while i < mutations.len()
        invariant
            i <= mutations.len(),
            base == payloads(live@),
            base.dom().finite(),
            views == mutation_views(mutations@),
            projected == apply_mutations(base, views, i as nat).dom().len(),
            updates_planned(updates_view(updates@), views, i as nat),
            overlay(base, updates_view(updates@)) == apply_mutations(base, views, i as nat),
            forall|j: nat| j <= i ==> (#[trigger] apply_mutations(base, views, j)).dom().len() <= usize::MAX,
        decreases mutations.len() - i,
    {
        let ghost now = apply_mutations(base, views, i as nat);
        let ghost next = apply_mutations(base, views, (i + 1) as nat);
        let ghost before = updates@;
        proof {
            lemma_apply_finite(base, views, i as nat);
        }
        let (key, payload): (Vec<u8>, Option<Vec<u8>>) = match &mutations[i] {
            StableMutation::Put { key, payload } => (key.flat(), Some(copy_bytes(payload.as_slice()))),
            StableMutation::Delete { key } => (key.flat(), None),
        };
        assert(views[i as int] == mutations@[i as int]@);
        assert(key@ == mutation_key(views[i as int]));
        let ghost value = mutation_value(views[i as int]);
        let next_present = payload.is_some();
        let current_present = match updates.get(key.as_slice()) {
            Some(update) => update.is_some(),
            None => live.contains(key.as_slice()),
        };
        assert(current_present == now.contains_key(key@)) by {
            assert(overlay(base, updates_view(before)).contains_key(key@) == now.contains_key(key@));
            if before.contains_key(key@) {
                assert(updates_view(before).contains_key(key@));
            } else {
                assert(!updates_view(before).contains_key(key@));
                assert(base.contains_key(key@) == live@.contains_key(key@));
            }
        }
        if current_present != next_present {
            if next_present {
                if projected == usize::MAX {
                    assert(apply_mutations(base, views, (i + 1) as nat).dom().len() > usize::MAX);
                    return Err(StableJournalError::LimitExceeded("stable record count"));
                }
                projected += 1;
            } else {
                projected -= 1;
            }
        }
        proof {
            if current_present && next_present {
                assert(next.dom() =~= now.dom());
            }
            if !current_present && !next_present {
                assert(next.dom() =~= now.dom());
            }
        }
        let ghost flat = key@;
        let ghost stored = payload;
        let _ = updates.insert(key, payload);
        proof {
            let after = updates_view(updates@);
            assert(after =~= updates_view(before).insert(flat, value));
            assert(overlay(base, after) =~= next);
            assert forall|k: Seq<u8>| #[trigger] after.contains_key(k) <==> mutated(views, (i + 1) as nat, k) by {
                if k == flat {
                    assert(mutation_key(views[i as int]) == k);
                } else if updates_view(before).contains_key(k) {
                    let j = choose|j: int| 0 <= j < i && mutation_key(#[trigger] views[j]) == k;
                    assert(0 <= j < i + 1 && mutation_key(views[j]) == k);
                } else if mutated(views, (i + 1) as nat, k) {
                    let j = choose|j: int| 0 <= j < i + 1 && mutation_key(#[trigger] views[j]) == k;
                    assert(j < i);
                    assert(mutated(views, i as nat, k));
                }
            }
            assert forall|at: int| #[trigger] last_mutation(views, (i + 1) as nat, at) implies after[mutation_key(
                views[at],
            )] == mutation_value(views[at]) by {
                if at < i {
                    assert(mutation_key(views[i as int]) != mutation_key(views[at]));
                    assert(last_mutation(views, i as nat, at));
                }
            }
        }
        i += 1;
    }
    if projected > max_records {
        return Err(StableJournalError::LimitExceeded("stable record count"));
    }
    Ok(updates)
}

/// The records with the first `n` updates, in key order, laid over them.
spec fn overlaid(live: Map<Seq<u8>, Seq<u8>>, keys: Seq<Seq<u8>>, values: Seq<Option<Vec<u8>>>, n: nat) -> Map<
    Seq<u8>,
    Seq<u8>,
>
    decreases n,
{
    if n == 0 {
        live
    } else {
        let rest = overlaid(live, keys, values, (n - 1) as nat);
        match values[n - 1] {
            Some(payload) => rest.insert(keys[n - 1], payload@),
            None => rest.remove(keys[n - 1]),
        }
    }
}

/// What a key holds after the first updates.
proof fn lemma_overlaid(live: Map<Seq<u8>, Seq<u8>>, keys: Seq<Seq<u8>>, values: Seq<Option<Vec<u8>>>, n: nat, k: Seq<u8>)
    requires
        n <= keys.len(),
        keys.len() == values.len(),
        keys.no_duplicates(),
    ensures
        (forall|i: int| 0 <= i < n ==> keys[i] != k) ==> overlaid(live, keys, values, n).contains_key(k)
            == live.contains_key(k) && (live.contains_key(k) ==> overlaid(live, keys, values, n)[k] == live[k]),
        forall|i: int|
            0 <= i < n && #[trigger] keys[i] == k ==> overlaid(live, keys, values, n).contains_key(k) == (values[i]
                is Some) && (values[i] matches Some(p) ==> overlaid(live, keys, values, n)[k] == p@),
    decreases n,
{
    if n > 0 {
        lemma_overlaid(live, keys, values, (n - 1) as nat, k);
        if keys[n - 1] == k {
            assert forall|i: int| 0 <= i < n - 1 implies keys[i] != k by {}
        }
    }
}

/// Lays the updates over the live records.
pub fn apply_live_record_updates(live: &mut ByteMap<Vec<u8>>, updates: &LiveRecordUpdates)
    ensures
        payloads(final(live)@) == overlay(payloads(old(live)@), updates_view(updates@)),
{
    updates.order_known();
    let ghost base = payloads(live@);
    let ghost keys = updates.keys();
    let ghost values = updates.values();
    let count: usize = updates.len();
    let mut i: usize = 0;
    while i < count
        invariant
            i <= count,
            count == updates.keys().len(),
            keys == updates.keys(),
            values == updates.values(),
            keys.len() == values.len(),
            payloads(live@) == overlaid(base, keys, values, i as nat),
        decreases count - i,
    {
        let ghost before = live@;
        let key = copy_bytes(updates.key_at(i).as_slice());
        match updates.value_at(i) {
            Some(payload) => {
                let stored = copy_bytes(payload.as_slice());
                let ghost view = stored;
                let _ = live.insert(key, stored);
                assert(payloads(live@) =~= payloads(before).insert(keys[i as int], view@));
            },
            None => {
                let _ = live.remove(key.as_slice());
                assert(payloads(live@) =~= payloads(before).remove(keys[i as int]));
            },
        }
        i += 1;
    }
    proof {
        let all = overlaid(base, keys, values, keys.len());
        let goal = overlay(base, updates_view(updates@));
        assert forall|k: Seq<u8>| #![trigger all.dom().contains(k)] #![trigger goal.dom().contains(k)] #![trigger all[k]]
            all.dom().contains(k) == goal.dom().contains(k) && (all.dom().contains(k) ==> all[k] == goal[k]) by {
            lemma_overlaid(base, keys, values, keys.len(), k);
            if updates@.contains_key(k) {
                assert(keys.contains(k));
                let at = keys.index_of(k);
                assert(0 <= at < keys.len() && keys[at] == k);
                assert(updates@[keys[at]] == values[at]);
            } else {
                assert forall|j: int| 0 <= j < keys.len() implies keys[j] != k by {
                    assert(updates@.contains_key(keys[j]));
                }
            }
        }
        assert(all =~= goal);
    }
}

/// A live map of its own with the same records.
pub fn copy_live(live: &ByteMap<Vec<u8>>) -> (copy: ByteMap<Vec<u8>>)
    ensures
        payloads(copy@) == payloads(live@),
{
    live.order_known();
    let ghost keys = live.keys();
    let ghost values = live.values();
    let count: usize = live.len();
    let mut copy: ByteMap<Vec<u8>> = ByteMap::new();
    let mut i: usize = 0;
    while i < count
        invariant
            i <= count,
            count == live.keys().len(),
            keys == live.keys(),
            values == live.values(),
            keys.len() == values.len(),
            keys.no_duplicates(),
            forall|k: Seq<u8>| #[trigger] copy@.contains_key(k) <==> exists|j: int| 0 <= j < i && keys[j] == k,
            forall|j: int| 0 <= j < i ==> copy@[#[trigger] keys[j]]@ == values[j]@,
        decreases count - i,
    {
        let ghost before = copy@;
        let key = copy_bytes(live.key_at(i).as_slice());
        let payload = copy_bytes(live.value_at(i).as_slice());
        let _ = copy.insert(key, payload);
        proof {
            assert forall|k: Seq<u8>| #[trigger] copy@.contains_key(k) <==> exists|j: int| 0 <= j < i + 1 && keys[j] == k by {
                if before.contains_key(k) {
                    let j = choose|j: int| 0 <= j < i && keys[j] == k;
                    assert(0 <= j < i + 1 && keys[j] == k);
                }
                if k == keys[i as int] {
                    assert(0 <= i < i + 1 && keys[i as int] == k);
                }
            }
        }
        i += 1;
    }
    proof {
        let a = payloads(copy@);
        let b = payloads(live@);
        assert forall|k: Seq<u8>| a.contains_key(k) == b.contains_key(k) && (a.contains_key(k) ==> a[k] == b[k]) by {
            assert(a.contains_key(k) == copy@.contains_key(k));
            assert(b.contains_key(k) == live@.contains_key(k));
            if live@.contains_key(k) {
                assert(keys.contains(k));
                let at = keys.index_of(k);
                assert(0 <= at < count && keys[at] == k);
                assert(live@[keys[at]] == values[at]);
            }
            if copy@.contains_key(k) {
                let j = choose|j: int| 0 <= j < count && keys[j] == k;
                assert(live@.contains_key(keys[j]));
            }
        }
        assert(a =~= b);
    }
    copy
}

/// Whether two maps hold the same records.
pub fn same_live(a: &ByteMap<Vec<u8>>, b: &ByteMap<Vec<u8>>) -> (same: bool)
    ensures
        same == (payloads(a@) == payloads(b@)),
{
    a.order_known();
    b.order_known();
    let ghost keys = a.keys();
    proof {
        assert(payloads(a@).dom() =~= a@.dom());
        assert(payloads(b@).dom() =~= b@.dom());
    }
    if a.len() != b.len() {
        return false;
    }
    let count: usize = a.len();
    let mut i: usize = 0;
    while i < count
        invariant
            i <= count,
            count == a.keys().len(),
            keys == a.keys(),
            keys.len() == a.values().len(),
            forall|j: int| 0 <= j < keys.len() ==> a@.contains_key(#[trigger] keys[j]),
            forall|j: int| 0 <= j < keys.len() ==> a@[#[trigger] keys[j]] == a.values()[j],
            forall|j: int| 0 <= j < i ==> b@.contains_key(#[trigger] keys[j]) && b@[keys[j]]@ == a@[keys[j]]@,
        decreases count - i,
    {
        let key = a.key_at(i);
        let payload = a.value_at(i);
        assert(payloads(a@).contains_key(keys[i as int]));
        match b.get(key.as_slice()) {
            Some(other) => {
                if !bytes_equal(payload.as_slice(), other.as_slice()) {
                    assert(payloads(b@).contains_key(keys[i as int]));
                    assert(payloads(a@)[keys[i as int]] != payloads(b@)[keys[i as int]]);
                    return false;
                }
            },
            None => {
                assert(!payloads(b@).contains_key(keys[i as int]));
                return false;
            },
        }
        i += 1;
    }
    proof {
        assert(a@.dom().subset_of(b@.dom())) by {
            assert forall|k: Seq<u8>| a@.contains_key(k) implies b@.contains_key(k) by {
                assert(keys.contains(k));
                let at = keys.index_of(k);
                assert(keys[at] == k);
            }
        }
        vstd::set_lib::lemma_subset_equality(a@.dom(), b@.dom());
        assert forall|k: Seq<u8>| payloads(a@).contains_key(k) implies payloads(a@)[k] == payloads(b@)[k] by {
            assert(keys.contains(k));
            let at = keys.index_of(k);
            assert(keys[at] == k);
        }
        assert(payloads(a@) =~= payloads(b@));
    }
    true
}

/// What is to be done about the outcome of a commit.
pub enum CommitVerdict {
    /// The outcome is certain: the new generation, or why there is none.
    Settled(Result<u64, StableJournalError>),
    /// The store must be recovered to learn whether the commit took effect.
    Recover(StableStateError),
}

/// The verdict on the outcome of a commit, from the outcome and the session's current fence.
pub open spec fn commit_verdict(
    session_fence: Seq<u8>,
    fence_token: Seq<u8>,
    expected_generation: u64,
    result: Result<u64, StableStateError>,
) -> CommitVerdict {
    match result {
        Ok(generation) => if generation == expected_generation {
            CommitVerdict::Settled(Err(StableJournalError::Corrupt("stable commit did not advance its generation")))
        } else {
            CommitVerdict::Settled(Ok(generation))
        },
        Err(e) => if session_fence != fence_token {
            CommitVerdict::Settled(Err(StableJournalError::Fenced))
        } else {
            CommitVerdict::Recover(e)
        },
    }
}

/// Judges the outcome of a commit.
pub fn settle_commit(
    session_fence: &[u8],
    fence_token: &[u8],
    expected_generation: u64,
    result: Result<u64, StableStateError>,
) -> (verdict: CommitVerdict)
    ensures
        verdict == commit_verdict(session_fence@, fence_token@, expected_generation, result),
{
    match result {
        Ok(generation) => {
            if generation == expected_generation {
                return CommitVerdict::Settled(
                    Err(StableJournalError::Corrupt("stable commit did not advance its generation")),
                );
            }
            CommitVerdict::Settled(Ok(generation))
        },
        Err(e) => {
            if !bytes_equal(session_fence, fence_token) {
                return CommitVerdict::Settled(Err(StableJournalError::Fenced));
            }
            CommitVerdict::Recover(e)
        },
    }
}

/// The first key or payload that is too long, among the first `n` records.
pub open spec fn sizes_checked(records: Seq<StableRecordView>, limits: StableJournalLimits, n: nat) -> Result<
    (),
    StableJournalError,
>
    decreases n,
{
    if n == 0 {
        Ok(())
    } else {
        match sizes_checked(records, limits, (n - 1) as nat) {
            Err(e) => Err(e),
            Ok(_) => if records[n - 1].key.key.len() > limits.max_key_bytes {
                Err(StableJournalError::LimitExceeded("stable record key"))
            } else if records[n - 1].payload.len() > limits.max_payload_bytes {
                Err(StableJournalError::LimitExceeded("stable record payload"))
            } else {
                Ok(())
            },
        }
    }
}

/// A fault among the first records is a fault of them all.
proof fn lemma_sizes_fault(records: Seq<StableRecordView>, limits: StableJournalLimits, n: nat, m: nat)
    requires
        n <= m,
        sizes_checked(records, limits, n) is Err,
    ensures
        sizes_checked(records, limits, m) == sizes_checked(records, limits, n),
    decreases m - n,
{
    if n < m {
        lemma_sizes_fault(records, limits, n, (m - 1) as nat);
    }
}

/// Checks the lengths of keys and payloads.
fn check_sizes(records: &Vec<StableRecord>, limits: StableJournalLimits) -> (done: Result<(), StableJournalError>)
    ensures
        done == sizes_checked(record_views(records@), limits, records@.len()),
{
    let ghost views = record_views(records@);
    let mut i: usize = 0;
    while i < records.len()
        invariant
            i <= records.len(),
            views == record_views(records@),
            sizes_checked(views, limits, i as nat) is Ok,
        decreases records.len() - i,
    {
        assert(views[i as int] == records@[i as int]@);
        if records[i].key.key.len() > limits.max_key_bytes {
            proof {
                lemma_sizes_fault(views, limits, (i + 1) as nat, views.len());
            }
            return Err(StableJournalError::LimitExceeded("stable record key"));
        }
        if records[i].payload.len() > limits.max_payload_bytes {
            proof {
                lemma_sizes_fault(views, limits, (i + 1) as nat, views.len());
            }
            return Err(StableJournalError::LimitExceeded("stable record payload"));
        }
        i += 1;
    }
    Ok(())
}

/// What a recovered image says of a commit whose outcome was uncertain: it took effect only where the whole
/// image is the expected one.
pub open spec fn recovered_verdict(
    fence_token: Seq<u8>,
    expected_generation: u64,
    live: Map<Seq<u8>, Seq<u8>>,
    updates: Map<Seq<u8>, Option<Seq<u8>>>,
    limits: StableJournalLimits,
    commit_error: StableStateError,
    fence: Seq<u8>,
    generation: u64,
    records: Seq<StableRecordView>,
) -> Result<u64, StableJournalError> {
    if fence != fence_token {
        Err(StableJournalError::Fenced)
    } else if records.len() > limits.max_records {
        Err(StableJournalError::LimitExceeded("stable record count"))
    } else if sizes_checked(records, limits, records.len()) is Err {
        Err(sizes_checked(records, limits, records.len())->Err_0)
    } else if !keys_distinct(records) {
        Err(StableJournalError::Corrupt("duplicate stable storage key"))
    } else if generation == expected_generation {
        if image_of(records, records.len()) != live {
            Err(StableJournalError::Corrupt("stable records changed without advancing their generation"))
        } else {
            Err(journal_error(commit_error))
        }
    } else if image_of(records, records.len()) == overlay(live, updates) {
        Ok(generation)
    } else {
        Err(StableJournalError::CasConflict { expected: expected_generation, actual: generation })
    }
}

/// Judges a commit by the image that was recovered after it.
pub fn settle_recovered(
    fence_token: &[u8],
    expected_generation: u64,
    live: &ByteMap<Vec<u8>>,
    updates: &LiveRecordUpdates,
    limits: StableJournalLimits,
    commit_error: StableStateError,
    recovered: Result<StableSnapshot, StableStateError>,
) -> (settled: Result<u64, StableJournalError>)
    ensures
        settled == match recovered {
            Err(e) => Err::<u64, StableJournalError>(journal_error(e)),
            Ok(snapshot) => recovered_verdict(
                fence_token@,
                expected_generation,
                payloads(live@),
                updates_view(updates@),
                limits,
                commit_error,
                snapshot.fence_token@,
                snapshot.generation,
                record_views(snapshot.records@),
            ),
        },
{
    let snapshot = match recovered {
        Ok(snapshot) => snapshot,
        Err(e) => {
            return Err(StableJournalError::from(e));
        },
    };
    if !bytes_equal(snapshot.fence_token.as_slice(), fence_token) {
        return Err(StableJournalError::Fenced);
    }
    if snapshot.records.len() > limits.max_records {
        return Err(StableJournalError::LimitExceeded("stable record count"));
    }
    check_sizes(&snapshot.records, limits)?;
    let found = stable_record_map(&snapshot.records)?;
    if snapshot.generation == expected_generation {
        if !same_live(&found, live) {
            return Err(StableJournalError::Corrupt("stable records changed without advancing their generation"));
        }
        return Err(StableJournalError::from(commit_error));
    }
    let mut expected = copy_live(live);
    apply_live_record_updates(&mut expected, updates);
    if same_live(&found, &expected) {
        Ok(snapshot.generation)
    } else {
        Err(StableJournalError::CasConflict { expected: expected_generation, actual: snapshot.generation })
    }
}

} // verus!
