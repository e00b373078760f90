//! What is open and locked agrees, whatever is done.

use vstd::prelude::*;

use crate::files::{file_at, files_without, no_state, FileView};
use crate::locks::{
    conflict_at, lemma_lock_agrees, lemma_unlock_agrees, lock_against, locks_agree, locks_left, locks_with,
    locks_without, owned, pieces_normal, HeldLock, LockRange, RangeOwner,
};
use crate::protocol::{file_place, LockAccess, RuntimeFile};
use crate::recovery::RecoveredOpen;
use crate::runtime::close::{close_finished, close_refused, ClosePlan};
use crate::runtime::complete::{open_finished, ready_refused, OpenPlan};
use crate::runtime::lock::{lock_finished, LockPlan};
use crate::runtime::open::{target_reserved, OpenReservation};
use crate::runtime::openstate::{change_finished, counted, shares_narrowed, OpenChangePlan};
use crate::runtime::revoke::revoked;
use crate::runtime::unlock::{unlock_finished, UnlockPlan};
use crate::runtime::RuntimeView;
use crate::share::{
    access_sum, deny_sum, lemma_close_agrees, lemma_put_agrees, lemma_share_found, narrowed_counts, share_at,
    share_closed, share_put, share_refused, shares_agree, shares_conflict, shares_without,
    ShareContributions, ShareReservation,
};
use crate::stateid::StateDisposition;

verus! {

/// Each share allows and denies what its contributions do together.
pub open spec fn shares_counted(shares: Seq<ShareReservation>) -> bool {
    forall|i: int|
        0 <= i < shares.len() ==> (#[trigger] shares[i]).contributions.aggregated() == Some(
            (shares[i].access, shares[i].deny),
        )
}

/// Of a file, no two shares stand against each other, and no two locks of different owners do.
pub open spec fn file_agrees(file: FileView) -> bool {
    shares_agree(file.shares) && shares_counted(file.shares) && locks_agree(file.locks)
}

/// Of every file, no two shares stand against each other, and no two locks of different owners do.
pub open spec fn files_agree(files: Map<Seq<u8>, FileView>) -> bool {
    forall|place: Seq<u8>| #[trigger] files.contains_key(place) ==> file_agrees(files[place])
}

/// A file that is not open is in agreement.
proof fn lemma_unused_agrees()
    ensures
        file_agrees(no_state()),
{
    let none: Seq<HeldLock> = seq![];
    assert forall|owner: RangeOwner| pieces_normal(#[trigger] owned(none, owner, none.len())) by {
        assert(owned(none, owner, 0).len() == 0);
    }
}

/// A share that is put in leaves each share with what its contributions allow and deny.
proof fn lemma_put_counted(shares: Seq<ShareReservation>, share: ShareReservation)
    requires
        shares_counted(shares),
        share.contributions.aggregated() == Some((share.access, share.deny)),
    ensures
        shares_counted(share_put(shares, share)),
{
    lemma_share_found(shares, share.owner@, shares.len());
    let after = share_put(shares, share);
    assert forall|i: int| 0 <= i < after.len() implies (#[trigger] after[i]).contributions.aggregated() == Some(
        (after[i].access, after[i].deny),
    ) by {
        if after[i] != share {
            assert(shares[i] == after[i]);
        }
    }
}

/// An open whose target is known leaves shares and locks in agreement.
pub proof fn lemma_target_keeps_agreement(
    view: RuntimeView,
    reservation: OpenReservation,
    file: RuntimeFile,
    recovered: Option<RecoveredOpen>,
    combined: ShareReservation,
)
    requires
        files_agree(view.files),
    ensures
        files_agree(target_reserved(view, reservation, file, recovered, combined).files),
{
    lemma_unused_agrees();
}

/// An open that is done, or given up, leaves shares and locks in agreement.
pub proof fn lemma_open_keeps_agreement(view: RuntimeView, plan: OpenPlan, persisted: bool)
    requires
        files_agree(view.files),
        persisted ==> ready_refused(view, plan) is None,
    ensures
        files_agree(open_finished(view, plan, persisted).files),
{
    if persisted {
        let place = file_place(plan.target.file);
        let share = ShareReservation {
            owner: plan.target.owner.owner,
            access: plan.target.access,
            deny: plan.target.deny,
            contributions: plan.target.contributions,
        };
        assert(file_agrees(view.files[place]));
        lemma_put_agrees(view.files[place].shares, share);
        lemma_put_counted(view.files[place].shares, share);
    }
}

/// An open that is closed leaves shares and locks in agreement.
pub proof fn lemma_close_keeps_agreement(view: RuntimeView, plan: ClosePlan, persisted: bool)
    requires
        files_agree(view.files),
        persisted ==> close_refused(view, plan.reservation) is None,
    ensures
        files_agree(close_finished(view, plan, persisted).files),
{
    if persisted {
        let place = file_place(plan.reservation.file);
        let owner = plan.reservation.owner.owner@;
        let shares = view.files[place].shares;
        assert(file_agrees(view.files[place]));
        lemma_close_agrees(shares, owner);
        lemma_share_found(shares, owner, shares.len());
        let after = share_closed(shares, owner);
        assert forall|i: int| 0 <= i < after.len() implies (#[trigger] after[i]).contributions.aggregated() == Some(
            (after[i].access, after[i].deny),
        ) by {
            let gone = share_at(shares, owner, shares.len())->0;
            let j = if i < gone {
                i
            } else {
                i + 1
            };
            assert(after[i] == shares[j]);
        }
    }
}

/// Fewer combinations allow and deny less.
proof fn lemma_sums_shrink(less: Seq<u32>, more: Seq<u32>, n: nat)
    requires
        n <= 12,
        less.len() == 12,
        more.len() == 12,
        forall|i: int| 0 <= i < 12 && #[trigger] less[i] != 0 ==> more[i] != 0,
    ensures
        access_sum(less, n).read ==> access_sum(more, n).read,
        access_sum(less, n).write ==> access_sum(more, n).write,
        deny_sum(less, n).read ==> deny_sum(more, n).read,
        deny_sum(less, n).write ==> deny_sum(more, n).write,
    decreases n,
{
    if n > 0 {
        lemma_sums_shrink(less, more, (n - 1) as nat);
        assert(less[n - 1] != 0 ==> more[n - 1] != 0);
    }
}

/// An open that is confirmed or narrowed leaves shares and locks in agreement: it allows and denies less.
pub proof fn lemma_change_keeps_agreement(view: RuntimeView, plan: OpenChangePlan, persisted: bool)
    requires
        files_agree(view.files),
    ensures
        files_agree(change_finished(view, plan, persisted).files),
{
    if persisted && plan.narrows && shares_narrowed(view, plan) is Some {
        let place = file_place(plan.reservation.file);
        let owner = plan.reservation.owner.owner;
        let shares = view.files[place].shares;
        assert(file_agrees(view.files[place]));
        lemma_share_found(shares, owner@, shares.len());
        let i = share_at(shares, owner@, shares.len())->0;
        let counts = narrowed_counts(shares[i].contributions.counts@, plan.access, plan.deny);
        let share = ShareReservation { owner, access: plan.access, deny: plan.deny, contributions: counted(counts) };
        lemma_sums_shrink(counts, shares[i].contributions.counts@, 12);
        assert(!share_refused(shares, owner@, plan.access, plan.deny)) by {
            assert forall|j: int| 0 <= j < shares.len() && (#[trigger] shares[j]).owner@ != owner@ implies !shares_conflict(
                shares[j],
                plan.access,
                plan.deny,
            ) by {
                assert(!shares_conflict(shares[j], shares[i].access, shares[i].deny));
            }
        }
        lemma_put_agrees(shares, share);
        assert(counted(counts).counts@ == counts) by {
            lemma_counts_exist(counts);
        }
        lemma_put_counted(shares, share);
    }
}

/// There are contributions with any twelve counts.
pub(crate) proof fn lemma_counts_exist(counts: Seq<u32>)
    requires
        counts.len() == 12,
    ensures
        counted(counts).counts@ == counts,
{
    let list: [u32; 12] = [
        counts[0],
        counts[1],
        counts[2],
        counts[3],
        counts[4],
        counts[5],
        counts[6],
        counts[7],
        counts[8],
        counts[9],
        counts[10],
        counts[11],
    ];
    let contributions = ShareContributions { counts: list };
    assert(contributions.counts@ =~= counts);
}

/// The locks that are left keep their order.
proof fn lemma_left_owned(locks: Seq<HeldLock>, client: u64, owner: RangeOwner, n: nat)
    requires
        n <= locks.len(),
    ensures
        owned(locks_left(locks, client, n), owner, locks_left(locks, client, n).len()) == if owner.0.0 == client {
            seq![]
        } else {
            owned(locks, owner, n)
        },
        forall|i: int|
            0 <= i < locks_left(locks, client, n).len() ==> exists|j: int|
                0 <= j < n && locks[j] == #[trigger] locks_left(locks, client, n)[i],
    decreases n,
{
    if n > 0 {
        lemma_left_owned(locks, client, owner, (n - 1) as nat);
        let before = locks_left(locks, client, (n - 1) as nat);
        let after = locks_left(locks, client, n);
        if locks[n - 1].owner.owner.client_id != client {
            lemma_owned_prefix(before, after, owner, before.len());
        }
        assert forall|i: int| 0 <= i < after.len() implies exists|j: int|
            0 <= j < n && locks[j] == #[trigger] after[i] by {
            if i < before.len() {
                assert(after[i] == before[i]);
                let j = choose|j: int| 0 <= j < n - 1 && locks[j] == before[i];
                assert(locks[j] == after[i]);
            } else {
                assert(locks[n - 1] == after[i]);
            }
        }
    }
}

/// What an owner has among the first locks depends on these only.
proof fn lemma_owned_prefix(a: Seq<HeldLock>, b: Seq<HeldLock>, owner: RangeOwner, n: nat)
    requires
        n <= a.len(),
        n <= b.len(),
        forall|i: int| 0 <= i < n ==> a[i] == #[trigger] b[i],
    ensures
        owned(a, owner, n) == owned(b, owner, n),
    decreases n,
{
    if n > 0 {
        lemma_owned_prefix(a, b, owner, (n - 1) as nat);
        assert(a[n - 1] == b[n - 1]);
    }
}

/// The shares that are left are shares that were there, in their order.
proof fn lemma_shares_left(shares: Seq<ShareReservation>, client: u64, n: nat) -> (at: Seq<int>)
    requires
        n <= shares.len(),
    ensures
        at.len() == shares_without(shares, client, n).len(),
        forall|i: int|
            0 <= i < at.len() ==> 0 <= #[trigger] at[i] < n && shares[at[i]] == shares_without(shares, client, n)[i],
        forall|i: int, j: int| 0 <= i < j < at.len() ==> #[trigger] at[i] < #[trigger] at[j],
    decreases n,
{
    if n == 0 {
        seq![]
    } else {
        let before = lemma_shares_left(shares, client, (n - 1) as nat);
        if shares[n - 1].owner.client_id == client {
            before
        } else {
            before.push(n - 1)
        }
    }
}

/// A client whose state ends leaves shares and locks in agreement.
pub proof fn lemma_revocation_keeps_agreement(view: RuntimeView, client: u64, disposition: StateDisposition)
    requires
        files_agree(view.files),
    ensures
        files_agree(revoked(view, client, disposition).files),
{
    let after = files_without(view.files, client);
    assert forall|place: Seq<u8>| #[trigger] after.contains_key(place) implies file_agrees(after[place]) by {
        let file = view.files[place];
        let left = after[place];
        assert(file_agrees(file));
        let at = lemma_shares_left(file.shares, client, file.shares.len());
        assert(shares_agree(left.shares)) by {
            assert forall|i: int, j: int|
                0 <= i < left.shares.len() && 0 <= j < left.shares.len() && i != j implies (
            #[trigger] left.shares[i]).owner@ != (#[trigger] left.shares[j]).owner@ && !shares_conflict(
                left.shares[i],
                left.shares[j].access,
                left.shares[j].deny,
            ) by {
                if i < j {
                    assert(at[i] < at[j]);
                } else {
                    assert(at[j] < at[i]);
                }
                assert(file.shares[at[i]] == left.shares[i]);
                assert(file.shares[at[j]] == left.shares[j]);
            }
        }
        assert(shares_counted(left.shares)) by {
            assert forall|i: int| 0 <= i < left.shares.len() implies (
            #[trigger] left.shares[i]).contributions.aggregated() == Some((left.shares[i].access, left.shares[i].deny)) by {
                assert(file.shares[at[i]] == left.shares[i]);
            }
        }
        let locks = left.locks;
        assert forall|owner: RangeOwner| pieces_normal(#[trigger] owned(locks, owner, locks.len())) by {
            lemma_left_owned(file.locks, client, owner, file.locks.len());
            assert(pieces_normal(owned(file.locks, owner, file.locks.len())));
        }
        assert forall|i: int, j: int|
            0 <= i < locks.len() && 0 <= j < locks.len() && (#[trigger] locks[i]).owner@ != (
            #[trigger] locks[j]).owner@ implies !lock_against(locks[i], locks[j].access, locks[j].range) by {
            lemma_left_owned(file.locks, client, locks[i].owner@, file.locks.len());
            let a = choose|a: int| 0 <= a < file.locks.len() && file.locks[a] == locks[i];
            let b = choose|b: int| 0 <= b < file.locks.len() && file.locks[b] == locks[j];
            assert(file.locks[a].owner@ != file.locks[b].owner@);
        }
    }
}

/// A lock that is planned where nothing stands against it, and had, leaves shares and locks in agreement.
pub proof fn lemma_lock_keeps_agreement(
    view: RuntimeView,
    plan: LockPlan,
    access: LockAccess,
    range: LockRange,
    persisted: bool,
)
    requires
        files_agree(view.files),
        range.solid(),
        conflict_at(
            file_at(view.files, plan.file).locks,
            plan.owner@,
            access,
            range,
            file_at(view.files, plan.file).locks.len(),
        ) is None,
        plan.locks@ == locks_with(file_at(view.files, plan.file).locks, plan.owner, access, range),
    ensures
        files_agree(lock_finished(view, plan, persisted).files),
{
    lemma_unused_agrees();
    lemma_lock_agrees(file_at(view.files, plan.file).locks, plan.owner, access, range);
}

/// Locks that are given back leave shares and locks in agreement.
pub proof fn lemma_unlock_keeps_agreement(view: RuntimeView, plan: UnlockPlan, range: LockRange, persisted: bool)
    requires
        files_agree(view.files),
        range.solid(),
        plan.locks@ == locks_without(file_at(view.files, plan.file).locks, plan.owner, range),
    ensures
        files_agree(unlock_finished(view, plan, persisted).files),
{
    lemma_unused_agrees();
    lemma_unlock_agrees(file_at(view.files, plan.file).locks, plan.owner, range);
}

} // verus!
