//! What opens of a file mean for each other: nobody is allowed what another one denies.

use vstd::prelude::*;

use crate::files::FileView;
use crate::identity::PrincipalView;
use crate::protocol::{Nfs4Limits, NfsStatus};
use crate::recovery::RecoveredOpen;
use crate::runtime::agreement::{file_agrees, files_agree, lemma_counts_exist};
use crate::runtime::open::{open_reserved, open_told, target_share, OpenDecision, OpenRequest, OpenReservation};
use crate::runtime::RuntimeView;
use crate::share::{
    access_at, access_refused, access_sum, aggregate_of, contributions_of, count_sum, deny_at, deny_sum, lemma_share_found,
    share_at, share_bits, share_place, wire_access, wire_deny, ShareAccess, ShareDeny, ShareReservation,
};

verus! {

/// The low bits of a number that has two.
proof fn lemma_two_bits(value: u32)
    requires
        value <= 3,
    ensures
        (value & 1 != 0) == (value == 1 || value == 3),
        (value & 2 != 0) == (value == 2 || value == 3),
{
    assert(value <= 3 ==> (value & 1 != 0) == (value == 1 || value == 3)) by (bit_vector);
    assert(value <= 3 ==> (value & 2 != 0) == (value == 2 || value == 3)) by (bit_vector);
}

/// Two numbers of two bits have a bit in common where they have the first or the second one.
proof fn lemma_common_bits(a: u32, b: u32)
    requires
        a <= 3,
        b <= 3,
    ensures
        (a & b != 0) == ((a & 1 != 0) && (b & 1 != 0) || (a & 2 != 0) && (b & 2 != 0)),
{
    assert(a <= 3 && b <= 3 ==> (a & b != 0) == ((a & 1 != 0) && (b & 1 != 0) || (a & 2 != 0) && (b & 2 != 0)))
        by (bit_vector);
}

/// On the wire the first bit is for reading and the second one for writing; an open allows something, and denies
/// what it likes. What was read from the wire goes back to it as it came.
pub proof fn lemma_wire_flags(value: u32)
    ensures
        wire_access(value) is Some <==> 1 <= value <= 3,
        wire_access(value) matches Some(access) ==> {
            &&& access.read == (value & 1 != 0)
            &&& access.write == (value & 2 != 0)
            &&& share_bits(access.read, access.write) == value
        },
        wire_deny(value) is Some <==> value <= 3,
        wire_deny(value) matches Some(deny) ==> {
            &&& deny.read == (value & 1 != 0)
            &&& deny.write == (value & 2 != 0)
            &&& share_bits(deny.read, deny.write) == value
        },
{
    if value <= 3 {
        lemma_two_bits(value);
    }
}

/// A request to open a file is valid where its numbers have two bits, and allow something: any other one is refused
/// as invalid, before anything else is looked at.
pub proof fn lemma_request_bits(view: RuntimeView, request: OpenRequest, principal: PrincipalView, now: u64)
    ensures
        request.share_access == 0 || request.share_access > 3 || request.share_deny > 3 ==> open_told(
            view,
            request,
            principal,
            now,
        ) == Some(OpenDecision::Error { status: NfsStatus::Invalid, client_id: None }),
{
}

/// What an open that is begun allows and denies are the bits of its request.
pub proof fn lemma_reservation_bits(view: RuntimeView, request: OpenRequest, previous: Set<u64>, r: OpenReservation)
    requires
        open_reserved(view, request, previous, r),
    ensures
        1 <= request.share_access <= 3,
        request.share_deny <= 3,
        r.access.read == (request.share_access & 1 != 0),
        r.access.write == (request.share_access & 2 != 0),
        r.deny.read == (request.share_deny & 1 != 0),
        r.deny.write == (request.share_deny & 2 != 0),
{
    lemma_wire_flags(request.share_access);
    lemma_wire_flags(request.share_deny);
}

/// A request to open a file is answered `ShareDenied` where it asks for a bit that an open of another owner denies,
/// or denies a bit that an open of another owner has.
pub proof fn lemma_common_bit_denied(
    file: FileView,
    r: OpenReservation,
    limits: Nfs4Limits,
    share_access: u32,
    share_deny: u32,
    i: int,
)
    requires
        wire_access(share_access) == Some(r.access),
        wire_deny(share_deny) == Some(r.deny),
        0 <= i < file.shares.len(),
        file.shares[i].owner@ != r.owner.owner@,
        share_access & share_bits(file.shares[i].deny.read, file.shares[i].deny.write) != 0 || share_deny & share_bits(
            file.shares[i].access.read,
            file.shares[i].access.write,
        ) != 0,
    ensures
        target_share(file, r, None, limits) == Err::<ShareReservation, NfsStatus>(NfsStatus::ShareDenied),
{
    let other = file.shares[i];
    let denied = share_bits(other.deny.read, other.deny.write);
    let allowed = share_bits(other.access.read, other.access.write);
    lemma_wire_flags(share_access);
    lemma_wire_flags(share_deny);
    lemma_two_bits(denied);
    lemma_two_bits(allowed);
    lemma_common_bits(share_access, denied);
    lemma_common_bits(share_deny, allowed);
}

/// What the first `n` combinations allow and deny together is what any of them that was opened does.
proof fn lemma_sums(counts: Seq<u32>, n: nat)
    requires
        n <= 12,
        counts.len() == 12,
    ensures
        count_sum(counts, n) > 0 <==> exists|i: int| 0 <= i < n && #[trigger] counts[i] != 0,
        access_sum(counts, n).read <==> exists|i: int| 0 <= i < n && #[trigger] counts[i] != 0 && access_at(i).read,
        access_sum(counts, n).write <==> exists|i: int| 0 <= i < n && #[trigger] counts[i] != 0 && access_at(i).write,
        deny_sum(counts, n).read <==> exists|i: int| 0 <= i < n && #[trigger] counts[i] != 0 && deny_at(i).read,
        deny_sum(counts, n).write <==> exists|i: int| 0 <= i < n && #[trigger] counts[i] != 0 && deny_at(i).write,
    decreases n,
{
    if n > 0 {
        lemma_sums(counts, (n - 1) as nat);
        let last = n - 1;
        assert(counts[last] != 0 || counts[last] == 0);
    }
}

/// What an owner's opens of a file allow and deny together is what any of them does: the count at place `i` is of
/// the opens with the wire numbers `i / 4 + 1` and `i % 4`.
pub proof fn lemma_aggregate(counts: Seq<u32>)
    requires
        counts.len() == 12,
    ensures
        match aggregate_of(counts) {
            None => forall|i: int| 0 <= i < 12 ==> #[trigger] counts[i] == 0,
            Some((access, deny)) => {
                &&& exists|i: int| 0 <= i < 12 && #[trigger] counts[i] != 0
                &&& access.read <==> exists|i: int| 0 <= i < 12 && #[trigger] counts[i] != 0 && i / 4 != 1
                &&& access.write <==> exists|i: int| 0 <= i < 12 && #[trigger] counts[i] != 0 && i / 4 != 0
                &&& deny.read <==> exists|i: int| 0 <= i < 12 && #[trigger] counts[i] != 0 && (i % 4 == 1 || i % 4 == 3)
                &&& deny.write <==> exists|i: int| 0 <= i < 12 && #[trigger] counts[i] != 0 && (i % 4 == 2 || i % 4 == 3)
            },
        },
{
    lemma_sums(counts, 12);
}

/// The place of a combination is told by its wire numbers, and no two combinations share one.
pub proof fn lemma_combination(share_access: u32, share_deny: u32)
    requires
        1 <= share_access <= 3,
        share_deny <= 3,
    ensures
        ({
            let place = share_place(wire_access(share_access)->0, wire_deny(share_deny)->0);
            &&& 0 <= place < 12
            &&& place / 4 + 1 == share_access
            &&& place % 4 == share_deny
        }),
{
}

/// An open that finds its target is compatible with every open of another owner, done or under way: neither denies
/// what the other one allows. It keeps what its owner's opens of the file allow and deny, and adds what is asked
/// for.
pub proof fn lemma_target_compatible(
    file: FileView,
    r: OpenReservation,
    recovered: Option<RecoveredOpen>,
    limits: Nfs4Limits,
)
    requires
        target_share(file, r, recovered, limits) is Ok,
    ensures
        ({
            let combined = target_share(file, r, recovered, limits)->Ok_0;
            &&& combined.owner == r.owner.owner
            &&& forall|i: int|
                0 <= i < file.shares.len() && (#[trigger] file.shares[i]).owner@ != r.owner.owner@ ==> {
                    let asked = if recovered is None {
                        (r.access, r.deny)
                    } else {
                        (combined.access, combined.deny)
                    };
                    &&& !(asked.0.read && file.shares[i].deny.read)
                    &&& !(asked.0.write && file.shares[i].deny.write)
                    &&& !(file.shares[i].access.read && asked.1.read)
                    &&& !(file.shares[i].access.write && asked.1.write)
                }
            &&& forall|i: int|
                0 <= i < file.pending_opens.len() && (#[trigger] file.pending_opens[i]).owner@ != r.owner.owner@ ==> {
                    &&& !(combined.access.read && file.pending_opens[i].deny.read)
                    &&& !(combined.access.write && file.pending_opens[i].deny.write)
                    &&& !(file.pending_opens[i].access.read && combined.deny.read)
                    &&& !(file.pending_opens[i].access.write && combined.deny.write)
                }
        }),
{
}

/// The counts with one more of a combination allow and deny what they did, and what the combination does.
proof fn lemma_one_more(counts: Seq<u32>, access: ShareAccess, deny: ShareDeny)
    requires
        counts.len() == 12,
        access.usable(),
        counts[share_place(access, deny)] < u32::MAX,
    ensures
        ({
            let place = share_place(access, deny);
            let after = counts.update(place, (counts[place] + 1) as u32);
            aggregate_of(after) matches Some((all, none)) && {
                &&& all.read == (access.read || access_sum(counts, 12).read)
                &&& all.write == (access.write || access_sum(counts, 12).write)
                &&& none.read == (deny.read || deny_sum(counts, 12).read)
                &&& none.write == (deny.write || deny_sum(counts, 12).write)
            }
        }),
{
    let place = share_place(access, deny);
    let after = counts.update(place, (counts[place] + 1) as u32);
    lemma_sums(counts, 12);
    lemma_sums(after, 12);
    assert(0 <= place < 12);
    assert(access_at(place) == access);
    assert(deny_at(place) == deny);
    assert(after[place] != 0);
    assert forall|i: int| 0 <= i < 12 && #[trigger] counts[i] != 0 implies after[i] != 0 by {}
    assert forall|i: int| 0 <= i < 12 && #[trigger] after[i] != 0 && i != place implies counts[i] != 0 by {}
}

/// An owner that opens a file again has what it had and what it asks for, no more and no less; one that has not
/// opened the file has what it asks for.
pub proof fn lemma_target_adds(file: FileView, r: OpenReservation, limits: Nfs4Limits)
    requires
        file_agrees(file),
        r.access.usable(),
        target_share(file, r, None, limits) is Ok,
    ensures
        ({
            let combined = target_share(file, r, None, limits)->Ok_0;
            &&& forall|i: int|
                0 <= i < file.shares.len() && (#[trigger] file.shares[i]).owner@ == r.owner.owner@ ==> {
                    &&& combined.access.read == (r.access.read || file.shares[i].access.read)
                    &&& combined.access.write == (r.access.write || file.shares[i].access.write)
                    &&& combined.deny.read == (r.deny.read || file.shares[i].deny.read)
                    &&& combined.deny.write == (r.deny.write || file.shares[i].deny.write)
                }
            &&& (forall|i: int| 0 <= i < file.shares.len() ==> (#[trigger] file.shares[i]).owner@ != r.owner.owner@)
                ==> combined.access == r.access && combined.deny == r.deny
        }),
{
    let counts = contributions_of(file.shares, r.owner.owner@);
    let place = share_place(r.access, r.deny);
    let after = counts.update(place, (counts[place] + 1) as u32);
    lemma_share_found(file.shares, r.owner.owner@, file.shares.len());
    lemma_counts_exist(after);
    lemma_one_more(counts, r.access, r.deny);
    match share_at(file.shares, r.owner.owner@, file.shares.len()) {
        Some(k) => {
            assert forall|i: int| 0 <= i < file.shares.len() && (#[trigger] file.shares[i]).owner@
                == r.owner.owner@ implies i == k by {
                assert(i != k ==> file.shares[i].owner@ != file.shares[k].owner@);
            }
        },
        None => {
            lemma_sums(counts, 12);
        },
    }
}

/// Of one file, no open allows what an open of another owner denies, and each owner has one share.
pub open spec fn opens_apart(shares: Seq<ShareReservation>) -> bool {
    forall|i: int, j: int|
        0 <= i < shares.len() && 0 <= j < shares.len() && i != j ==> {
            &&& (#[trigger] shares[i]).owner@ != (#[trigger] shares[j]).owner@
            &&& share_bits(shares[i].access.read, shares[i].access.write) & share_bits(
                shares[j].deny.read,
                shares[j].deny.write,
            ) == 0
        }
}

/// Whatever the clients have done, no open of a file has a wire bit of access that an open of another owner has among
/// its bits of denial.
pub proof fn lemma_agreement_apart(view: RuntimeView, place: Seq<u8>)
    requires
        files_agree(view.files),
        view.files.contains_key(place),
    ensures
        opens_apart(view.files[place].shares),
        forall|i: int, j: int|
            0 <= i < view.files[place].shares.len() && 0 <= j < view.files[place].shares.len() && i != j ==> {
                &&& !((#[trigger] view.files[place].shares[i]).access.read && (
                #[trigger] view.files[place].shares[j]).deny.read)
                &&& !(view.files[place].shares[i].access.write && view.files[place].shares[j].deny.write)
            },
{
    let shares = view.files[place].shares;
    assert(file_agrees(view.files[place]));
    assert forall|i: int, j: int| 0 <= i < shares.len() && 0 <= j < shares.len() && i != j implies {
        &&& (#[trigger] shares[i]).owner@ != (#[trigger] shares[j]).owner@
        &&& share_bits(shares[i].access.read, shares[i].access.write) & share_bits(
            shares[j].deny.read,
            shares[j].deny.write,
        ) == 0
        &&& !(shares[i].access.read && shares[j].deny.read)
        &&& !(shares[i].access.write && shares[j].deny.write)
    } by {
        let allowed = share_bits(shares[i].access.read, shares[i].access.write);
        let denied = share_bits(shares[j].deny.read, shares[j].deny.write);
        lemma_two_bits(allowed);
        lemma_two_bits(denied);
        lemma_common_bits(allowed, denied);
    }
}

/// Without a state id, a file is read only where no open denies reading, and written or cut only where none denies
/// writing.
pub proof fn lemma_denied_to_strangers(shares: Seq<ShareReservation>, access: ShareAccess)
    ensures
        access_refused(shares, access) <==> exists|i: int|
            0 <= i < shares.len() && (access.read && (#[trigger] shares[i]).deny.read || access.write && shares[i].deny.write),
{
    if exists|i: int|
        0 <= i < shares.len() && (access.read && (#[trigger] shares[i]).deny.read || access.write && shares[i].deny.write) {
        let i = choose|i: int|
            0 <= i < shares.len() && (access.read && (#[trigger] shares[i]).deny.read || access.write
                && shares[i].deny.write);
        assert(crate::share::denied_by(access, shares[i].deny));
    }
}

} // verus!
