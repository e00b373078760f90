//! What a run wrote of its opens, locks and replies is what the next run finds.

use vstd::prelude::*;

use crate::locks::{owned, pieces_normal, stable_ranges, Piece};
use crate::protocol::{file_of, stable_of, token_of, Nfs4Limits, ReplayEffect};
use crate::record::{OpenContributionRecord, RecordView};
use crate::recovery::{
    contributed, effect_of, hydrated_lock, hydrated_open, hydrated_replay, ranges_sound, recovered_range,
    recovered_ranges, RecoveredLockView, RecoveredOpenView, RecoveredReplayView,
};
use crate::registry::{replay_record_of, OwnerReservation};
use crate::runtime::complete::{opened_record, OpenPlan};
use crate::runtime::lock::{planned_record, LockPlan};
use crate::share::{
    access_at, contribution_records, count_sum, deny_at, lemma_wire_round_trip, share_bits, share_place, wire_access,
    wire_deny,
};

verus! {

/// The first `n` counts.
spec fn first_counts(counts: Seq<u32>, n: nat) -> Seq<u32> {
    Seq::new(
        12,
        |i: int|
            if i < n {
                counts[i]
            } else {
                0
            },
    )
}

/// The sum of the first counts.
proof fn lemma_first_sum(counts: Seq<u32>, n: nat, m: nat)
    requires
        n <= 12,
        m <= 12,
        counts.len() == 12,
    ensures
        count_sum(first_counts(counts, n), m) == count_sum(
            counts,
            if m < n {
                m
            } else {
                n
            },
        ),
    decreases m,
{
    if m > 0 {
        lemma_first_sum(counts, n, (m - 1) as nat);
    }
}

/// More counts add up to more.
proof fn lemma_sum_grows(counts: Seq<u32>, n: nat, m: nat)
    requires
        n <= m,
    ensures
        count_sum(counts, n) <= count_sum(counts, m),
    decreases m - n,
{
    if n < m {
        lemma_sum_grows(counts, n, (m - 1) as nat);
    }
}

/// What the first contributions add up to does not depend on the others.
proof fn lemma_contributed_prefix(list: Seq<OpenContributionRecord>, one: OpenContributionRecord, limit: usize, n: nat)
    requires
        n <= list.len(),
    ensures
        contributed(list.push(one), limit, n) == contributed(list, limit, n),
    decreases n,
{
    if n > 0 {
        lemma_contributed_prefix(list, one, limit, (n - 1) as nat);
        assert(list.push(one)[n - 1] == list[n - 1]);
    }
}

/// The first contributions that were written add up to the first counts.
proof fn lemma_contributions_add_up(counts: Seq<u32>, limit: usize, n: nat)
    requires
        counts.len() == 12,
        n <= 12,
        count_sum(counts, 12) <= limit,
    ensures
        contributed(contribution_records(counts, n), limit, contribution_records(counts, n).len()) == Some(
            first_counts(counts, n),
        ),
    decreases n,
{
    if n == 0 {
        assert(first_counts(counts, 0) =~= Seq::new(12, |i: int| 0u32));
    } else {
        lemma_contributions_add_up(counts, limit, (n - 1) as nat);
        let before = contribution_records(counts, (n - 1) as nat);
        let i = n - 1;
        if counts[i] == 0 {
            assert(first_counts(counts, n) =~= first_counts(counts, (n - 1) as nat));
        } else {
            let one = OpenContributionRecord {
                share_access: share_bits(access_at(i).read, access_at(i).write),
                share_deny: share_bits(deny_at(i).read, deny_at(i).write),
                count: counts[i],
            };
            lemma_contributed_prefix(before, one, limit, before.len());
            lemma_wire_round_trip(access_at(i), deny_at(i));
            assert(share_place(access_at(i), deny_at(i)) == i);
            lemma_first_sum(counts, (n - 1) as nat, 12);
            lemma_sum_grows(counts, n, 12);
            assert(first_counts(counts, n) =~= first_counts(counts, (n - 1) as nat).update(i, counts[i]));
        }
    }
}

/// What an owner has opened, combination by combination, is what the next run finds in the record of the open.
pub proof fn lemma_contributions_recovered(counts: Seq<u32>, limit: usize)
    requires
        counts.len() == 12,
        count_sum(counts, 12) <= limit,
    ensures
        contributed(contribution_records(counts, 12), limit, contribution_records(counts, 12).len()) == Some(counts),
{
    lemma_contributions_add_up(counts, limit, 12);
    assert(first_counts(counts, 12) =~= counts);
}

/// The record of a completed open gives the next run the same open: its state id, owner, file, access, denial and
/// contributions.
pub proof fn lemma_open_recovered(plan: OpenPlan, limits: Nfs4Limits)
    requires
        plan.target.access.usable(),
        plan.target.contributions.aggregated() == Some((plan.target.access, plan.target.deny)),
        plan.target.contributions.total() <= limits.max_open_contributions_per_state,
    ensures
        opened_record(plan) matches RecordView::Open(open) && wire_access(open.share_access) == Some(plan.target.access)
            && wire_deny(open.share_deny) == Some(plan.target.deny) && hydrated_open(open, limits) == (
        RecoveredOpenView {
            state_token: token_of(plan.state_id),
            previous_client_id: plan.target.owner.owner.client_id,
            owner: plan.target.owner.owner.owner@,
            file: plan.target.file,
            access: plan.target.access,
            deny: plan.target.deny,
            contributions: plan.target.contributions.counts@,
        }),
{
    lemma_wire_round_trip(plan.target.access, plan.target.deny);
    lemma_contributions_recovered(plan.target.contributions.counts@, limits.max_open_contributions_per_state);
    assert(file_of(stable_of(plan.target.file)) == plan.target.file);
}

/// A piece whose length can be written down: the one from the first byte to the last but one cannot be told from the
/// whole file.
pub open spec fn piece_writable(piece: Piece) -> bool {
    !(piece.range.start == 0 && piece.range.end == Some(u64::MAX))
}

/// The ranges that an owner has locked are those that the next run finds in the record of the locks.
pub proof fn lemma_ranges_recovered(pieces: Seq<Piece>)
    requires
        pieces_normal(pieces),
        forall|i: int| 0 <= i < pieces.len() ==> piece_writable(#[trigger] pieces[i]),
    ensures
        ranges_sound(stable_ranges(pieces)),
        recovered_ranges(stable_ranges(pieces)) == pieces,
{
    let ranges = stable_ranges(pieces);
    assert forall|i: int| 0 <= i < ranges.len() implies recovered_range(#[trigger] ranges[i]) == Some(pieces[i]) by {
        let piece = pieces[i];
        assert(piece.range.solid());
        assert(piece_writable(piece));
    }
    assert(recovered_ranges(ranges) =~= pieces);
}

/// The record of locks that were had gives the next run the same locks.
pub proof fn lemma_locks_recovered(plan: LockPlan)
    requires
        pieces_normal(owned(plan.locks@, plan.owner@, plan.locks@.len())),
        forall|i: int|
            0 <= i < owned(plan.locks@, plan.owner@, plan.locks@.len()).len() ==> piece_writable(
                #[trigger] owned(plan.locks@, plan.owner@, plan.locks@.len())[i],
            ),
    ensures
        planned_record(plan) matches RecordView::Lock(lock) && ranges_sound(lock.ranges) && hydrated_lock(
            lock,
            token_of(plan.open_state_id),
        ) == (RecoveredLockView {
            state_token: token_of(plan.state_id),
            previous_open_state_token: token_of(plan.open_state_id),
            previous_client_id: plan.owner.owner.client_id,
            owner: plan.owner.owner.owner@,
            file: plan.file,
            ranges: owned(plan.locks@, plan.owner@, plan.locks@.len()),
        }),
{
    lemma_ranges_recovered(owned(plan.locks@, plan.owner@, plan.locks@.len()));
    assert(file_of(stable_of(plan.file)) == plan.file);
}

/// The record of a reply gives the next run the same reply, and the operation that is read from it with the same
/// effect, where it renews no lease or that of its own client.
pub proof fn lemma_reply_recovered(
    reservation: OwnerReservation,
    effect: ReplayEffect,
    reply: Seq<u8>,
    operation: Seq<u8>,
)
    requires
        effect.stateid_renewal_client matches Some(client) ==> client == reservation.owner.client_id,
    ensures
        replay_record_of(reservation, effect, reply) matches RecordView::Replay(replay) && effect_of(replay) == Some(
            effect,
        ) && replay.reply == reply && hydrated_replay(replay, operation) == (RecoveredReplayView {
            sequence_id: reservation.sequence_id,
            digest: reservation.digest.0@,
            operation,
            effect,
        }),
{
    if let Some(file) = effect.current_file {
        assert(file_of(stable_of(file)) == file);
    }
}

} // verus!
