//! Share reservations: what the opens of a file allow their owners and deny the others.

use vstd::prelude::*;

use crate::protocol::{LockAccess, OwnerKey};
use crate::record::OpenContributionRecord;

verus! {

/// What an open allows: reading, writing, or both.
#[derive(Clone, Copy, Debug, PartialEq, Eq, Structural)]
pub struct ShareAccess {
    pub read: bool,
    pub write: bool,
}

/// What an open denies the others: reading, writing, both or nothing.
#[derive(Clone, Copy, Debug, PartialEq, Eq, Structural)]
pub struct ShareDeny {
    pub read: bool,
    pub write: bool,
}

/// The bits of a pair of flags on the wire.
pub open spec fn share_bits(read: bool, write: bool) -> u32 {
    if read && write {
        3
    } else if write {
        2
    } else if read {
        1
    } else {
        0
    }
}

/// The flags behind a number of the wire.
pub open spec fn wire_access(value: u32) -> Option<ShareAccess> {
    if value == 1 {
        Some(ShareAccess { read: true, write: false })
    } else if value == 2 {
        Some(ShareAccess { read: false, write: true })
    } else if value == 3 {
        Some(ShareAccess { read: true, write: true })
    } else {
        None
    }
}

/// The flags behind a number of the wire.
pub open spec fn wire_deny(value: u32) -> Option<ShareDeny> {
    if value == 0 {
        Some(ShareDeny { read: false, write: false })
    } else if value == 1 {
        Some(ShareDeny { read: true, write: false })
    } else if value == 2 {
        Some(ShareDeny { read: false, write: true })
    } else if value == 3 {
        Some(ShareDeny { read: true, write: true })
    } else {
        None
    }
}

impl ShareAccess {
    /// The access behind a number of the wire.
    pub fn from_wire(value: u32) -> (access: Option<ShareAccess>)
        ensures
            access == wire_access(value),
    {
        match value {
            1 => Some(ShareAccess { read: true, write: false }),
            2 => Some(ShareAccess { read: false, write: true }),
            3 => Some(ShareAccess { read: true, write: true }),
            _ => None,
        }
    }

    /// The access on the wire.
    pub fn bits(self) -> (bits: u32)
        ensures
            bits == share_bits(self.read, self.write),
    {
        if self.read && self.write {
            3
        } else if self.write {
            2
        } else if self.read {
            1
        } else {
            0
        }
    }

    /// The access is one that an open can have.
    pub open spec fn usable(self) -> bool {
        self.read || self.write
    }

    /// The access allows what a lock of that kind needs.
    pub open spec fn permits(self, access: LockAccess) -> bool {
        match access {
            LockAccess::Read => self.read,
            LockAccess::Write => self.write,
        }
    }

    /// Whether the access allows what a lock of that kind needs.
    pub fn permits_lock(self, access: LockAccess) -> (permitted: bool)
        ensures
            permitted == self.permits(access),
    {
        match access {
            LockAccess::Read => self.read,
            LockAccess::Write => self.write,
        }
    }
}

impl ShareDeny {
    /// The denial behind a number of the wire.
    pub fn from_wire(value: u32) -> (deny: Option<ShareDeny>)
        ensures
            deny == wire_deny(value),
    {
        match value {
            0 => Some(ShareDeny { read: false, write: false }),
            1 => Some(ShareDeny { read: true, write: false }),
            2 => Some(ShareDeny { read: false, write: true }),
            3 => Some(ShareDeny { read: true, write: true }),
            _ => None,
        }
    }

    /// The denial on the wire.
    pub fn bits(self) -> (bits: u32)
        ensures
            bits == share_bits(self.read, self.write),
    {
        if self.read && self.write {
            3
        } else if self.write {
            2
        } else if self.read {
            1
        } else {
            0
        }
    }
}

/// What goes over the wire comes back.
pub proof fn lemma_wire_round_trip(access: ShareAccess, deny: ShareDeny)
    requires
        access.usable(),
    ensures
        wire_access(share_bits(access.read, access.write)) == Some(access),
        wire_deny(share_bits(deny.read, deny.write)) == Some(deny),
{
}

/// An access meets a denial.
pub open spec fn denied_by(access: ShareAccess, deny: ShareDeny) -> bool {
    access.read && deny.read || access.write && deny.write
}

/// Whether an access meets a denial.
pub fn access_denied(access: ShareAccess, deny: ShareDeny) -> (denied: bool)
    ensures
        denied == denied_by(access, deny),
{
    access.read && deny.read || access.write && deny.write
}

/// How often each combination of access and denial was opened. The twelve combinations are ordered by access,
/// then by denial.
#[derive(Clone, Copy)]
pub struct ShareContributions {
    pub counts: [u32; 12],
}

/// The access of a combination.
pub open spec fn access_at(i: int) -> ShareAccess {
    if i < 4 {
        ShareAccess { read: true, write: false }
    } else if i < 8 {
        ShareAccess { read: false, write: true }
    } else {
        ShareAccess { read: true, write: true }
    }
}

/// The denial of a combination.
pub open spec fn deny_at(i: int) -> ShareDeny {
    if i % 4 == 0 {
        ShareDeny { read: false, write: false }
    } else if i % 4 == 1 {
        ShareDeny { read: true, write: false }
    } else if i % 4 == 2 {
        ShareDeny { read: false, write: true }
    } else {
        ShareDeny { read: true, write: true }
    }
}

/// The place of a combination.
pub open spec fn share_place(access: ShareAccess, deny: ShareDeny) -> int {
    (share_bits(access.read, access.write) - 1) * 4 + share_bits(deny.read, deny.write)
}

/// The sum of the first `n` counts.
pub open spec fn count_sum(counts: Seq<u32>, n: nat) -> nat
    decreases n,
{
    if n == 0 {
        0
    } else {
        count_sum(counts, (n - 1) as nat) + counts[n - 1] as nat
    }
}

/// What the first `n` combinations that were opened allow together.
pub open spec fn access_sum(counts: Seq<u32>, n: nat) -> ShareAccess
    decreases n,
{
    if n == 0 {
        ShareAccess { read: false, write: false }
    } else {
        let before = access_sum(counts, (n - 1) as nat);
        if counts[n - 1] == 0 {
            before
        } else {
            ShareAccess {
                read: before.read || access_at(n - 1).read,
                write: before.write || access_at(n - 1).write,
            }
        }
    }
}

/// What the first `n` combinations that were opened deny together.
pub open spec fn deny_sum(counts: Seq<u32>, n: nat) -> ShareDeny
    decreases n,
{
    if n == 0 {
        ShareDeny { read: false, write: false }
    } else {
        let before = deny_sum(counts, (n - 1) as nat);
        if counts[n - 1] == 0 {
            before
        } else {
            ShareDeny { read: before.read || deny_at(n - 1).read, write: before.write || deny_at(n - 1).write }
        }
    }
}

/// The count of a combination that a narrower share may keep.
pub open spec fn kept_count(counts: Seq<u32>, i: int, access: ShareAccess, deny: ShareDeny) -> u32 {
    if (access_at(i).read ==> access.read) && (access_at(i).write ==> access.write) && (deny_at(i).read ==> deny.read)
        && (deny_at(i).write ==> deny.write) {
        counts[i]
    } else {
        0
    }
}

/// The counts that a narrower share may keep.
pub open spec fn narrowed_counts(counts: Seq<u32>, access: ShareAccess, deny: ShareDeny) -> Seq<u32> {
    Seq::new(12, |i: int| kept_count(counts, i, access, deny))
}

/// What was opened allows and denies together, where anything was opened.
pub open spec fn aggregate_of(counts: Seq<u32>) -> Option<(ShareAccess, ShareDeny)> {
    if count_sum(counts, 12) == 0 {
        None
    } else {
        Some((access_sum(counts, 12), deny_sum(counts, 12)))
    }
}

/// The stable form of the first `n` combinations that were opened.
pub open spec fn contribution_records(counts: Seq<u32>, n: nat) -> Seq<OpenContributionRecord>
    decreases n,
{
    if n == 0 {
        seq![]
    } else {
        let before = contribution_records(counts, (n - 1) as nat);
        if counts[n - 1] == 0 {
            before
        } else {
            before.push(
                OpenContributionRecord {
                    share_access: share_bits(access_at(n - 1).read, access_at(n - 1).write),
                    share_deny: share_bits(deny_at(n - 1).read, deny_at(n - 1).write),
                    count: counts[n - 1],
                },
            )
        }
    }
}

/// The sum of counts bounds each partial sum.
proof fn lemma_count_sum(counts: Seq<u32>, n: nat, m: nat)
    requires
        n <= m,
    ensures
        count_sum(counts, n) <= count_sum(counts, m),
        count_sum(counts, n) <= n * 0x1_0000_0000,
    decreases m,
{
    if n > 0 {
        lemma_count_sum(counts, (n - 1) as nat, (n - 1) as nat);
    }
    if n < m {
        lemma_count_sum(counts, n, (m - 1) as nat);
    }
}

/// One more of a combination adds to the sum.
proof fn lemma_count_update(counts: Seq<u32>, i: int, count: u32, n: nat)
    requires
        0 <= i < counts.len(),
        n <= counts.len(),
        counts[i] + count <= u32::MAX,
    ensures
        count_sum(counts.update(i, (counts[i] + count) as u32), n) == count_sum(counts, n) + if i < n {
            count as nat
        } else {
            0
        },
    decreases n,
{
    if n > 0 {
        lemma_count_update(counts, i, count, (n - 1) as nat);
    }
}

impl ShareContributions {
    /// How often anything was opened.
    pub open spec fn total(self) -> nat {
        count_sum(self.counts@, 12)
    }

    /// What was opened allows and denies together, where anything was opened.
    pub open spec fn aggregated(self) -> Option<(ShareAccess, ShareDeny)> {
        aggregate_of(self.counts@)
    }

    /// Those contributions with more of one combination.
    pub open spec fn with(self, access: ShareAccess, deny: ShareDeny, count: u32, after: ShareContributions) -> bool {
        after.counts@ == self.counts@.update(
            share_place(access, deny),
            (self.counts@[share_place(access, deny)] + count) as u32,
        )
    }

    /// No contributions.
    pub fn new() -> (contributions: Self)
        ensures
            forall|i: int| 0 <= i < 12 ==> contributions.counts@[i] == 0,
    {
        ShareContributions { counts: [0u32; 12] }
    }

    /// Whether two lists of contributions are the same.
    pub fn same(&self, with: &ShareContributions) -> (same: bool)
        ensures
            same == (*self == *with),
    {
        let mut i: usize = 0;
        while i < 12
            invariant
                i <= 12,
                forall|j: int| 0 <= j < i ==> self.counts@[j] == with.counts@[j],
            decreases 12 - i,
        {
            if self.counts[i] != with.counts[i] {
                return false;
            }
            i += 1;
        }
        assert(self.counts =~= with.counts);
        true
    }

    /// How often anything was opened.
    pub fn sum(&self) -> (total: u64)
        ensures
            total == self.total(),
    {
        let mut total: u64 = 0;
        let mut i: usize = 0;
        while i < 12
            invariant
                i <= 12,
                total == count_sum(self.counts@, i as nat),
                total <= i * 0x1_0000_0000,
            decreases 12 - i,
        {
            total = total + self.counts[i] as u64;
            i += 1;
        }
        total
    }

    /// Adds openings of one combination, unless that passes the limit.
    pub fn add(&mut self, access: ShareAccess, deny: ShareDeny, count: u32, limit: usize) -> (done: bool)
        requires
            access.usable(),
        ensures
            done == (old(self).total() + count <= limit && old(self).counts@[share_place(access, deny)] + count
                <= u32::MAX),
            if done {
                old(self).with(access, deny, count, *final(self)) && final(self).total() == old(self).total() + count
            } else {
                *final(self) == *old(self)
            },
    {
        let total = self.sum();
        let place: usize = (access.bits() as usize - 1) * 4 + deny.bits() as usize;
        if total > limit as u64 || count as u64 > limit as u64 - total {
            return false;
        }
        if self.counts[place] > u32::MAX - count {
            return false;
        }
        proof {
            lemma_count_update(self.counts@, place as int, count, 12);
        }
        let ghost before = self.counts@;
        let mut counts = self.counts;
        counts[place] = counts[place] + count;
        self.counts = counts;
        assert(self.counts@ =~= before.update(place as int, (before[place as int] + count) as u32));
        true
    }

    /// What was opened allows and denies together, where anything was opened.
    pub fn aggregate(&self) -> (aggregate: Option<(ShareAccess, ShareDeny)>)
        ensures
            aggregate == self.aggregated(),
    {
        if self.sum() == 0 {
            return None;
        }
        let mut access = ShareAccess { read: false, write: false };
        let mut deny = ShareDeny { read: false, write: false };
        let mut i: usize = 0;
        while i < 12
            invariant
                i <= 12,
                access == access_sum(self.counts@, i as nat),
                deny == deny_sum(self.counts@, i as nat),
            decreases 12 - i,
        {
            if self.counts[i] != 0 {
                if i < 4 || i >= 8 {
                    access.read = true;
                }
                if i >= 4 {
                    access.write = true;
                }
                if i % 4 == 1 || i % 4 == 3 {
                    deny.read = true;
                }
                if i % 4 >= 2 {
                    deny.write = true;
                }
            }
            i += 1;
        }
        Some((access, deny))
    }

    /// What stays of the contributions under a narrower share.
    pub fn narrow(&self, access: ShareAccess, deny: ShareDeny) -> (narrowed: ShareContributions)
        ensures
            narrowed.counts@ == narrowed_counts(self.counts@, access, deny),
    {
        let mut counts = self.counts;
        let mut i: usize = 0;
        while i < 12
            invariant
                i <= 12,
                forall|j: int| 0 <= j < i ==> #[trigger] counts@[j] == kept_count(self.counts@, j, access, deny),
                forall|j: int| i <= j < 12 ==> #[trigger] counts@[j] == self.counts@[j],
            decreases 12 - i,
        {
            let reads = i < 4 || i >= 8;
            let writes = i >= 4;
            let denies_read = i % 4 == 1 || i % 4 == 3;
            let denies_write = i % 4 >= 2;
            if (reads && !access.read) || (writes && !access.write) || (denies_read && !deny.read) || (denies_write
                && !deny.write) {
                counts[i] = 0;
            }
            i += 1;
        }
        assert(counts@ =~= narrowed_counts(self.counts@, access, deny));
        ShareContributions { counts }
    }
}

/// The stable form of contributions.
pub fn stable_open_contributions(contributions: &ShareContributions) -> (records: Vec<OpenContributionRecord>)
    ensures
        records@ == contribution_records(contributions.counts@, 12),
{
    let mut records: Vec<OpenContributionRecord> = Vec::new();
    let mut i: usize = 0;
    while i < 12
        invariant
            i <= 12,
            records@ == contribution_records(contributions.counts@, i as nat),
        decreases 12 - i,
    {
        if contributions.counts[i] != 0 {
            let share_access: u32 = if i < 4 {
                1
            } else if i < 8 {
                2
            } else {
                3
            };
            records.push(
                OpenContributionRecord {
                    share_access,
                    share_deny: (i % 4) as u32,
                    count: contributions.counts[i],
                },
            );
        }
        i += 1;
    }
    records
}

/// What one owner's opens of a file allow and deny together.
pub struct ShareReservation {
    pub owner: OwnerKey,
    pub access: ShareAccess,
    pub deny: ShareDeny,
    pub contributions: ShareContributions,
}

/// A share stands against another owner's one.
pub open spec fn shares_conflict(share: ShareReservation, access: ShareAccess, deny: ShareDeny) -> bool {
    denied_by(access, share.deny) || denied_by(share.access, deny)
}

/// Some other owner's share stands against the requested one.
pub open spec fn share_refused(
    shares: Seq<ShareReservation>,
    owner: (u64, Seq<u8>),
    access: ShareAccess,
    deny: ShareDeny,
) -> bool {
    exists|i: int|
        0 <= i < shares.len() && (#[trigger] shares[i]).owner@ != owner && shares_conflict(shares[i], access, deny)
}

/// The place of an owner's share, among the first `n`.
pub open spec fn share_at(shares: Seq<ShareReservation>, owner: (u64, Seq<u8>), n: nat) -> Option<int>
    decreases n,
{
    if n == 0 {
        None
    } else if share_at(shares, owner, (n - 1) as nat) is Some {
        share_at(shares, owner, (n - 1) as nat)
    } else if shares[n - 1].owner@ == owner {
        Some(n - 1)
    } else {
        None
    }
}

/// The shares with an owner's share put in or replaced.
pub open spec fn share_put(shares: Seq<ShareReservation>, share: ShareReservation) -> Seq<ShareReservation> {
    match share_at(shares, share.owner@, shares.len()) {
        Some(i) => shares.update(i, share),
        None => shares.push(share),
    }
}

/// The contributions of an owner, or none.
pub open spec fn contributions_of(shares: Seq<ShareReservation>, owner: (u64, Seq<u8>)) -> Seq<u32> {
    match share_at(shares, owner, shares.len()) {
        Some(i) => shares[i].contributions.counts@,
        None => Seq::new(12, |i: int| 0u32),
    }
}

/// Why a share is refused.
#[derive(Clone, Copy, Debug, PartialEq, Eq, Structural)]
pub enum ShareOpenError {
    /// Another owner's share stands against it.
    Conflict,
    /// The owner has opened the file too often.
    ContributionLimit,
}

/// An opening of the file by an owner yields that share.
pub open spec fn share_opened(
    shares: Seq<ShareReservation>,
    owner: OwnerKey,
    access: ShareAccess,
    deny: ShareDeny,
    limit: usize,
    result: Result<ShareReservation, ShareOpenError>,
) -> bool {
    let counts = contributions_of(shares, owner@);
    if share_refused(shares, owner@, access, deny) {
        result == Err::<ShareReservation, ShareOpenError>(ShareOpenError::Conflict)
    } else if count_sum(counts, 12) + 1 > limit || counts[share_place(access, deny)] == u32::MAX {
        result == Err::<ShareReservation, ShareOpenError>(ShareOpenError::ContributionLimit)
    } else {
        let place = share_place(access, deny);
        &&& result is Ok
        &&& result->Ok_0.owner == owner
        &&& result->Ok_0.contributions.counts@ == counts.update(place, (counts[place] + 1) as u32)
        &&& Some((result->Ok_0.access, result->Ok_0.deny)) == result->Ok_0.contributions.aggregated()
    }
}

/// An installation of contributions yields that share.
pub open spec fn share_installed(
    shares: Seq<ShareReservation>,
    owner: OwnerKey,
    contributions: ShareContributions,
    limit: usize,
) -> Result<ShareReservation, ShareOpenError> {
    match contributions.aggregated() {
        None => Err(ShareOpenError::ContributionLimit),
        Some((access, deny)) => if share_refused(shares, owner@, access, deny) {
            Err(ShareOpenError::Conflict)
        } else if contributions.total() > limit {
            Err(ShareOpenError::ContributionLimit)
        } else {
            Ok(ShareReservation { owner, access, deny, contributions })
        },
    }
}

/// Whether some other owner's share stands against the requested one.
pub fn share_conflict(shares: &Vec<ShareReservation>, owner: &OwnerKey, access: ShareAccess, deny: ShareDeny) -> (refused:
    bool)
    ensures
        refused == share_refused(shares@, owner@, access, deny),
{
    let mut i: usize = 0;
    while i < shares.len()
        invariant
            i <= shares@.len(),
            forall|j: int|
                0 <= j < i ==> !((#[trigger] shares@[j]).owner@ != owner@ && shares_conflict(shares@[j], access, deny)),
        decreases shares@.len() - i,
    {
        if !shares[i].owner.same(owner) && (access_denied(access, shares[i].deny) || access_denied(
            shares[i].access,
            deny,
        )) {
            return true;
        }
        i += 1;
    }
    false
}

/// The place of an owner's share.
pub fn find_share(shares: &Vec<ShareReservation>, owner: &OwnerKey) -> (at: Option<usize>)
    ensures
        match at {
            Some(i) => share_at(shares@, owner@, shares@.len()) == Some(i as int) && i < shares@.len()
                && shares@[i as int].owner@ == owner@,
            None => share_at(shares@, owner@, shares@.len()) is None,
        },
{
    let mut i: usize = 0;
    while i < shares.len()
        invariant
            i <= shares@.len(),
            share_at(shares@, owner@, i as nat) is None,
        decreases shares@.len() - i,
    {
        if shares[i].owner.same(owner) {
            proof {
                lemma_share_stays(shares@, owner@, (i + 1) as nat, shares@.len());
            }
            return Some(i);
        }
        i += 1;
    }
    None
}

/// A share that is found stays found.
proof fn lemma_share_stays(shares: Seq<ShareReservation>, owner: (u64, Seq<u8>), n: nat, m: nat)
    requires
        n <= m,
        share_at(shares, owner, n) is Some,
    ensures
        share_at(shares, owner, m) == share_at(shares, owner, n),
    decreases m - n,
{
    if n < m {
        lemma_share_stays(shares, owner, n, (m - 1) as nat);
    }
}

/// What is found is the owner's.
pub proof fn lemma_share_found(shares: Seq<ShareReservation>, owner: (u64, Seq<u8>), n: nat)
    requires
        n <= shares.len(),
    ensures
        match share_at(shares, owner, n) {
            Some(i) => 0 <= i < n && shares[i].owner@ == owner,
            None => forall|i: int| 0 <= i < n ==> (#[trigger] shares[i]).owner@ != owner,
        },
    decreases n,
{
    if n > 0 {
        lemma_share_found(shares, owner, (n - 1) as nat);
    }
}

/// The share that an opening of the file yields.
pub fn open_share(shares: &Vec<ShareReservation>, owner: &OwnerKey, access: ShareAccess, deny: ShareDeny, limit: usize) -> (result:
    Result<ShareReservation, ShareOpenError>)
    requires
        access.usable(),
    ensures
        share_opened(shares@, *owner, access, deny, limit, result),
{
    if share_conflict(shares, owner, access, deny) {
        return Err(ShareOpenError::Conflict);
    }
    let mut contributions = match find_share(shares, owner) {
        Some(i) => shares[i].contributions,
        None => ShareContributions::new(),
    };
    assert(contributions.counts@ =~= contributions_of(shares@, owner@));
    if !contributions.add(access, deny, 1, limit) {
        return Err(ShareOpenError::ContributionLimit);
    }
    match contributions.aggregate() {
        Some((access, deny)) => Ok(ShareReservation { owner: owner.copy(), access, deny, contributions }),
        None => Err(ShareOpenError::ContributionLimit),
    }
}

/// The share that an installation of contributions yields.
pub fn install_share(shares: &Vec<ShareReservation>, owner: &OwnerKey, contributions: ShareContributions, limit: usize) -> (result:
    Result<ShareReservation, ShareOpenError>)
    ensures
        result == share_installed(shares@, *owner, contributions, limit),
{
    match contributions.aggregate() {
        None => Err(ShareOpenError::ContributionLimit),
        Some((access, deny)) => {
            if share_conflict(shares, owner, access, deny) {
                return Err(ShareOpenError::Conflict);
            }
            if contributions.sum() > limit as u64 {
                return Err(ShareOpenError::ContributionLimit);
            }
            Ok(ShareReservation { owner: owner.copy(), access, deny, contributions })
        },
    }
}

/// Puts in or replaces an owner's share.
pub fn put_share(shares: &mut Vec<ShareReservation>, share: ShareReservation)
    ensures
        final(shares)@ == share_put(old(shares)@, share),
{
    match find_share(shares, &share.owner) {
        Some(i) => {
            shares.set(i, share);
        },
        None => {
            shares.push(share);
        },
    }
}

/// A narrowing of an owner's share yields those contributions: what stays must add up to exactly the narrower
/// share.
pub open spec fn share_narrowed(
    shares: Seq<ShareReservation>,
    owner: (u64, Seq<u8>),
    access: ShareAccess,
    deny: ShareDeny,
    result: Option<ShareContributions>,
) -> bool {
    match share_at(shares, owner, shares.len()) {
        None => result is None,
        Some(i) => {
            let kept = narrowed_counts(shares[i].contributions.counts@, access, deny);
            match result {
                Some(after) => aggregate_of(kept) == Some((access, deny)) && after.counts@ == kept,
                None => aggregate_of(kept) != Some((access, deny)),
            }
        },
    }
}

/// The contributions that stay of an owner's share once it is narrowed.
pub fn downgrade_share(shares: &Vec<ShareReservation>, owner: &OwnerKey, access: ShareAccess, deny: ShareDeny) -> (result:
    Option<ShareContributions>)
    ensures
        share_narrowed(shares@, owner@, access, deny, result),
{
    match find_share(shares, owner) {
        None => None,
        Some(i) => {
            let kept = shares[i].contributions.narrow(access, deny);
            match kept.aggregate() {
                Some((a, d)) => {
                    if a == access && d == deny {
                        Some(kept)
                    } else {
                        None
                    }
                },
                None => None,
            }
        },
    }
}

/// The shares without an owner's one.
pub open spec fn share_closed(shares: Seq<ShareReservation>, owner: (u64, Seq<u8>)) -> Seq<ShareReservation> {
    match share_at(shares, owner, shares.len()) {
        Some(i) => shares.remove(i),
        None => shares,
    }
}

/// Removes an owner's share.
pub fn close_share(shares: &mut Vec<ShareReservation>, owner: &OwnerKey) -> (closed: bool)
    ensures
        final(shares)@ == share_closed(old(shares)@, owner@),
        closed == (share_at(old(shares)@, owner@, old(shares)@.len()) is Some),
{
    match find_share(shares, owner) {
        Some(i) => {
            let _ = shares.remove(i);
            true
        },
        None => false,
    }
}

/// The first `n` shares without those of a client.
pub open spec fn shares_without(shares: Seq<ShareReservation>, client_id: u64, n: nat) -> Seq<ShareReservation>
    decreases n,
{
    if n == 0 {
        seq![]
    } else if shares[n - 1].owner.client_id == client_id {
        shares_without(shares, client_id, (n - 1) as nat)
    } else {
        shares_without(shares, client_id, (n - 1) as nat).push(shares[n - 1])
    }
}

impl ShareReservation {
    /// The same share again.
    pub fn copy(&self) -> (copy: Self)
        ensures
            copy == *self,
    {
        ShareReservation {
            owner: self.owner.copy(),
            access: self.access,
            deny: self.deny,
            contributions: self.contributions,
        }
    }
}

/// Removes the shares of a client.
pub fn release_shares(shares: &mut Vec<ShareReservation>, client_id: u64)
    ensures
        final(shares)@ == shares_without(old(shares)@, client_id, old(shares)@.len()),
{
    let ghost before = shares@;
    let mut kept: Vec<ShareReservation> = Vec::new();
    let mut i: usize = 0;
    while i < shares.len()
        invariant
            i <= shares@.len(),
            shares@ == before,
            kept@ == shares_without(before, client_id, i as nat),
        decreases shares@.len() - i,
    {
        if shares[i].owner.client_id != client_id {
            kept.push(shares[i].copy());
        }
        i += 1;
    }
    *shares = kept;
}

/// Some share denies the access.
pub open spec fn access_refused(shares: Seq<ShareReservation>, access: ShareAccess) -> bool {
    exists|i: int| 0 <= i < shares.len() && denied_by(access, (#[trigger] shares[i]).deny)
}

/// Whether some share denies the access.
pub fn conflicts_with_access(shares: &Vec<ShareReservation>, access: ShareAccess) -> (refused: bool)
    ensures
        refused == access_refused(shares@, access),
{
    let mut i: usize = 0;
    while i < shares.len()
        invariant
            i <= shares@.len(),
            forall|j: int| 0 <= j < i ==> !denied_by(access, (#[trigger] shares@[j]).deny),
        decreases shares@.len() - i,
    {
        if access_denied(access, shares[i].deny) {
            return true;
        }
        i += 1;
    }
    false
}

/// Each owner has one share, and no two owners' shares stand against each other.
pub open spec fn shares_agree(shares: Seq<ShareReservation>) -> bool {
    forall|i: int, j: int|
        0 <= i < shares.len() && 0 <= j < shares.len() && i != j ==> (#[trigger] shares[i]).owner@ != (
        #[trigger] shares[j]).owner@ && !shares_conflict(shares[i], shares[j].access, shares[j].deny)
}

/// A share that is put in where nothing stands against it leaves the shares in agreement.
pub proof fn lemma_put_agrees(shares: Seq<ShareReservation>, share: ShareReservation)
    requires
        shares_agree(shares),
        !share_refused(shares, share.owner@, share.access, share.deny),
    ensures
        shares_agree(share_put(shares, share)),
{
    lemma_share_found(shares, share.owner@, shares.len());
    let after = share_put(shares, share);
    assert forall|i: int, j: int| 0 <= i < after.len() && 0 <= j < after.len() && i != j implies (
    #[trigger] after[i]).owner@ != (#[trigger] after[j]).owner@ && !shares_conflict(
        after[i],
        after[j].access,
        after[j].deny,
    ) by {
        let at = match share_at(shares, share.owner@, shares.len()) {
            Some(k) => k,
            None => shares.len() as int,
        };
        if i != at && j != at {
            assert(after[i] == shares[i] && after[j] == shares[j]);
        } else if i == at {
            assert(after[j] == shares[j]);
            if at < shares.len() {
                assert(shares[at].owner@ == share.owner@);
                assert(shares[j].owner@ != shares[at].owner@);
            }
            assert(shares[j].owner@ != share.owner@);
        } else {
            assert(after[i] == shares[i]);
            if at < shares.len() {
                assert(shares[at].owner@ == share.owner@);
                assert(shares[i].owner@ != shares[at].owner@);
            }
            assert(shares[i].owner@ != share.owner@);
        }
    }
}

/// Removing a share leaves the others in agreement.
pub proof fn lemma_close_agrees(shares: Seq<ShareReservation>, owner: (u64, Seq<u8>))
    requires
        shares_agree(shares),
    ensures
        shares_agree(share_closed(shares, owner)),
{
    lemma_share_found(shares, owner, shares.len());
    let after = share_closed(shares, owner);
    if let Some(k) = share_at(shares, owner, shares.len()) {
        assert forall|i: int, j: int| 0 <= i < after.len() && 0 <= j < after.len() && i != j implies (
        #[trigger] after[i]).owner@ != (#[trigger] after[j]).owner@ && !shares_conflict(
            after[i],
            after[j].access,
            after[j].deny,
        ) by {
            let a = if i < k {
                i
            } else {
                i + 1
            };
            let b = if j < k {
                j
            } else {
                j + 1
            };
            assert(after[i] == shares[a] && after[j] == shares[b]);
        }
    }
}

} // verus!
