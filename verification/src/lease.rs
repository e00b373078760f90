//! Leases, the grace period after a restart, and the duty to look for exports that have moved. Times are ticks of
//! the server's clock.

use vstd::prelude::*;

use crate::bytemap::ByteMap;
use crate::codec::{be32, be64, ExportId};
use crate::numbermap::NumberMap;
use crate::protocol::{append_number, NfsStatus};
use crate::transfer::number_key;

verus! {

/// The time that has passed, never less than none.
pub open spec fn elapsed(now: u64, since: u64) -> u64 {
    if now >= since {
        (now - since) as u64
    } else {
        0
    }
}

/// The time that has passed, never less than none.
pub fn time_since(now: u64, since: u64) -> (passed: u64)
    ensures
        passed == elapsed(now, since),
{
    if now >= since {
        now - since
    } else {
        0
    }
}

/// When each client renewed its lease last.
pub struct LeaseTable {
    pub duration: u64,
    pub renewed: NumberMap<u64>,
}

/// What a table of leases stands for.
#[verifier::ext_equal]
pub struct LeaseView {
    pub duration: u64,
    pub renewed: Map<u64, u64>,
}

impl View for LeaseTable {
    type V = LeaseView;

    open spec fn view(&self) -> LeaseView {
        LeaseView { duration: self.duration, renewed: self.renewed@ }
    }
}

impl LeaseView {
    /// The client's lease has run out.
    pub open spec fn lapsed(self, client: u64, now: u64) -> bool {
        self.renewed.contains_key(client) && elapsed(now, self.renewed[client]) >= self.duration
    }

    /// The leases once a client has renewed its own.
    pub open spec fn touched(self, client: u64, now: u64) -> LeaseView {
        if self.lapsed(client, now) {
            self
        } else {
            LeaseView { renewed: self.renewed.insert(client, now), ..self }
        }
    }

    /// The leases that have not run out.
    pub open spec fn current(self, now: u64) -> LeaseView {
        LeaseView {
            renewed: Map::new(
                |client: u64| self.renewed.contains_key(client) && !self.lapsed(client, now),
                |client: u64| self.renewed[client],
            ),
            ..self
        }
    }
}

impl LeaseTable {
    /// A table of leases of that duration, unless there would be none.
    pub fn new(duration: u64) -> (table: Option<LeaseTable>)
        ensures
            if duration == 0 {
                table is None
            } else {
                table is Some && table->0@ == (LeaseView { duration, renewed: Map::empty() })
            },
    {
        if duration == 0 {
            return None;
        }
        Some(LeaseTable { duration, renewed: NumberMap::new() })
    }

    /// Renews a client's lease, or begins it; a lease that has run out is not renewed.
    pub fn touch(&mut self, client: u64, now: u64) -> (renewed: bool)
        ensures
            renewed == !old(self)@.lapsed(client, now),
            final(self)@ == old(self)@.touched(client, now),
    {
        let lapsed = match self.renewed.get(client) {
            Some(last) => time_since(now, *last) >= self.duration,
            None => false,
        };
        if lapsed {
            return false;
        }
        let _ = self.renewed.insert(client, now);
        true
    }

    /// Takes out the leases that have run out, and names their clients.
    pub fn expire_due(&mut self, now: u64) -> (expired: Vec<u64>)
        ensures
            final(self)@ == old(self)@.current(now),
            forall|client: u64| expired@.contains(client) <==> old(self)@.lapsed(client, now),
            expired@.no_duplicates(),
    {
        self.renewed.order_known();
        let ghost before = self@;
        let ghost keys = self.renewed.keys();
        let count: usize = self.renewed.len();
        let mut expired: Vec<u64> = Vec::new();
        let mut kept: NumberMap<u64> = NumberMap::new();
        let mut i: usize = 0;
        while i < count
            invariant
                i <= count,
                count == keys.len(),
                keys == self.renewed.keys(),
                keys.no_duplicates(),
                before == self@,
                *self == *old(self),
                forall|j: int| 0 <= j < keys.len() ==> self.renewed@.contains_key(#[trigger] keys[j]),
                forall|j: int| 0 <= j < keys.len() ==> self.renewed@[#[trigger] keys[j]] == self.renewed.values()[j],
                forall|client: u64| #[trigger]
                    kept@.contains_key(client) ==> before.renewed.contains_key(client) && !before.lapsed(client, now)
                        && kept@[client] == before.renewed[client],
                forall|client: u64| #[trigger]
                    expired@.contains(client) ==> before.lapsed(client, now) && exists|j: int|
                        0 <= j < i && keys[j] == client,
                expired@.no_duplicates(),
                forall|j: int|
                    0 <= j < i ==> if before.lapsed(#[trigger] keys[j], now) {
                        expired@.contains(keys[j])
                    } else {
                        kept@.contains_key(keys[j])
                    },
            decreases count - i,
        {
            let client = self.renewed.key_at(i);
            let last: u64 = *self.renewed.value_at(i);
            assert(!expired@.contains(client));
            if time_since(now, last) >= self.duration {
                let ghost had = expired@;
                expired.push(client);
                proof {
                    assert(expired@[expired@.len() - 1] == client);
                    assert forall|c: u64| #[trigger] had.contains(c) implies expired@.contains(c) by {
                        let k = had.index_of(c);
                        assert(expired@[k] == c);
                    }
                    assert forall|c: u64| #[trigger] expired@.contains(c) implies before.lapsed(c, now) && exists|j: int|
                        0 <= j < i + 1 && keys[j] == c by {
                        let k = expired@.index_of(c);
                        if k < had.len() {
                            assert(had[k] == c);
                            assert(had.contains(c));
                            let j = choose|j: int| 0 <= j < i && keys[j] == c;
                            assert(keys[j] == c);
                        } else {
                            assert(keys[i as int] == c);
                        }
                    }
                    assert forall|a: int, b: int| 0 <= a < b < expired@.len() implies expired@[a] != expired@[b] by {
                        if b == had.len() {
                            assert(had.contains(had[a]));
                        }
                    }
                }
            } else {
                let _ = kept.insert(client, last);
            }
            i += 1;
        }
        proof {
            assert forall|client: u64| before.lapsed(client, now) implies expired@.contains(client) by {
                assert(self.renewed@.contains_key(client));
                let k = keys.index_of(client);
                assert(keys[k] == client);
            }
            assert forall|client: u64|
                before.renewed.contains_key(client) && !before.lapsed(client, now) implies kept@.contains_key(
                client,
            ) by {
                assert(self.renewed@.contains_key(client));
                let k = keys.index_of(client);
                assert(keys[k] == client);
            }
        }
        self.renewed = kept;
        assert(self@.renewed =~= before.current(now).renewed);
        expired
    }

    /// Forgets a client's lease.
    pub fn remove(&mut self, client: u64)
        ensures
            final(self)@ == (LeaseView { renewed: old(self)@.renewed.remove(client), ..old(self)@ }),
    {
        let _ = self.renewed.remove(client);
    }

    /// Whether a client has a lease that has not run out.
    pub fn is_active(&self, client: u64, now: u64) -> (active: bool)
        ensures
            active == (self@.renewed.contains_key(client) && !self@.lapsed(client, now)),
    {
        match self.renewed.get(client) {
            Some(last) => time_since(now, *last) < self.duration,
            None => false,
        }
    }
}

/// The grace period after a restart, in which clients reclaim what they had.
pub struct RecoveryState {
    pub grace_until: Option<u64>,
    pub reclaimable: NumberMap<()>,
}

/// What a grace period stands for.
#[verifier::ext_equal]
pub struct GraceView {
    pub grace_until: Option<u64>,
    pub reclaimable: Set<u64>,
}

impl View for RecoveryState {
    type V = GraceView;

    open spec fn view(&self) -> GraceView {
        GraceView { grace_until: self.grace_until, reclaimable: self.reclaimable@.dom() }
    }
}

impl GraceView {
    /// The grace period lasts.
    pub open spec fn in_grace(self, now: u64) -> bool {
        self.grace_until matches Some(until) && now < until
    }

    /// The grace period is over, and what was not reclaimed is still there.
    pub open spec fn due(self, now: u64) -> bool {
        self.grace_until matches Some(until) && now >= until
    }

    /// Whether a client may have state now: in the grace period only what it reclaims, and else only what it does
    /// not.
    pub open spec fn allowed(self, client: u64, reclaim: bool, now: u64) -> Result<(), NfsStatus> {
        if self.in_grace(now) {
            if !reclaim {
                Err(NfsStatus::Grace)
            } else if self.reclaimable.contains(client) {
                Ok(())
            } else {
                Err(NfsStatus::ReclaimBad)
            }
        } else if reclaim {
            Err(NfsStatus::NoGrace)
        } else {
            Ok(())
        }
    }
}

impl RecoveryState {
    /// No grace period: nothing is reclaimed.
    pub fn reject_reclaims() -> (state: RecoveryState)
        ensures
            state@ == (GraceView { grace_until: None, reclaimable: Set::empty() }),
    {
        let state = RecoveryState { grace_until: None, reclaimable: NumberMap::new() };
        assert(state@.reclaimable =~= Set::<u64>::empty());
        state
    }

    /// Whether the grace period lasts.
    pub fn in_grace(&self, now: u64) -> (grace: bool)
        ensures
            grace == self@.in_grace(now),
    {
        match self.grace_until {
            Some(until) => now < until,
            None => false,
        }
    }

    /// Whether the grace period is over with something left to clean up.
    pub fn cleanup_due(&self, now: u64) -> (due: bool)
        ensures
            due == self@.due(now),
    {
        match self.grace_until {
            Some(until) => now >= until,
            None => false,
        }
    }

    /// Whether a client may have state now.
    pub fn allow(&self, client: u64, reclaim: bool, now: u64) -> (allowed: Result<(), NfsStatus>)
        ensures
            allowed == self@.allowed(client, reclaim, now),
    {
        if self.in_grace(now) {
            if !reclaim {
                return Err(NfsStatus::Grace);
            }
            if self.reclaimable.contains(client) {
                return Ok(());
            }
            return Err(NfsStatus::ReclaimBad);
        }
        if reclaim {
            return Err(NfsStatus::NoGrace);
        }
        Ok(())
    }

    /// Begins a grace period, or lets it last longer.
    pub fn begin_grace(&mut self, now: u64, duration: u64)
        ensures
            final(self)@ == (GraceView {
                grace_until: Some(grace_end(old(self)@.grace_until, now, duration)),
                reclaimable: old(self)@.reclaimable,
            }),
    {
        let end: u64 = if now > u64::MAX - duration {
            u64::MAX
        } else {
            now + duration
        };
        let until: u64 = match self.grace_until {
            Some(until) => if until > end {
                until
            } else {
                end
            },
            None => end,
        };
        self.grace_until = Some(until);
    }

    /// Lets a client reclaim.
    pub fn add_reclaimable(&mut self, client: u64)
        ensures
            final(self)@ == (GraceView {
                grace_until: old(self)@.grace_until,
                reclaimable: old(self)@.reclaimable.insert(client),
            }),
    {
        let _ = self.reclaimable.insert(client, ());
        assert(self@.reclaimable =~= old(self)@.reclaimable.insert(client));
    }

    /// Lets a client reclaim no more.
    pub fn complete_client_reclaim(&mut self, client: u64)
        ensures
            final(self)@ == (GraceView {
                grace_until: old(self)@.grace_until,
                reclaimable: old(self)@.reclaimable.remove(client),
            }),
    {
        let _ = self.reclaimable.remove(client);
        assert(self@.reclaimable =~= old(self)@.reclaimable.remove(client));
    }

    /// Ends the grace period.
    pub fn end_grace(&mut self)
        ensures
            final(self)@ == (GraceView { grace_until: None, reclaimable: Set::empty() }),
    {
        self.grace_until = None;
        self.reclaimable = NumberMap::new();
        assert(self@.reclaimable =~= Set::<u64>::empty());
    }
}

/// The end of a grace period that begins now, or that lasted already.
pub open spec fn grace_end(until: Option<u64>, now: u64, duration: u64) -> u64 {
    let end = if now + duration > u64::MAX {
        u64::MAX
    } else {
        (now + duration) as u64
    };
    match until {
        Some(until) => if until > end {
            until
        } else {
            end
        },
        None => end,
    }
}

/// The duty of a client to look for an export that has moved.
#[derive(Clone, Copy, Debug, PartialEq, Eq, Structural)]
pub enum MovedLeaseObligation {
    /// The client was told at that time, and has not looked yet.
    Pending { first_notified: u64 },
    /// The client did not look in time, and is left alone.
    LegacyTimedOut,
}

/// A duty with its client and its export.
#[derive(Clone, Copy, Debug, PartialEq, Eq, Structural)]
pub struct MovedEntry {
    pub client_id: u64,
    pub export_id: ExportId,
    pub obligation: MovedLeaseObligation,
}

/// The bytes under which a duty is filed.
pub open spec fn moved_place(client_id: u64, export_id: ExportId) -> Seq<u8> {
    be64(client_id) + be32(export_id.0)
}

/// The bytes under which a duty is filed.
fn moved_key(client_id: u64, export_id: ExportId) -> (key: Vec<u8>)
    ensures
        key@ == moved_place(client_id, export_id),
{
    let mut key = number_key(client_id);
    append_number(&mut key, export_id.0);
    key
}

/// Duties are filed apart.
pub proof fn lemma_moved_place(a: u64, x: ExportId, b: u64, y: ExportId)
    ensures
        (moved_place(a, x) == moved_place(b, y)) == (a == b && x == y),
{
    crate::codec::lemma_be64(a, seq![]);
    crate::codec::lemma_be64(b, seq![]);
    crate::codec::lemma_be32(x.0, seq![]);
    crate::codec::lemma_be32(y.0, seq![]);
    if moved_place(a, x) == moved_place(b, y) {
        assert(moved_place(a, x).take(8) =~= be64(a));
        assert(moved_place(b, y).take(8) =~= be64(b));
        assert(moved_place(a, x).skip(8) =~= be32(x.0));
        assert(moved_place(b, y).skip(8) =~= be32(y.0));
    }
}

/// The duties of all clients, of which there are never more than the bound.
pub struct MovedLeaseTracker {
    obligations: ByteMap<MovedEntry>,
    capacity: usize,
    legacy_timeout: u64,
}

/// What the duties of all clients stand for.
#[verifier::ext_equal]
pub struct MovedView {
    pub obligations: Map<Seq<u8>, MovedEntry>,
    pub capacity: usize,
    pub legacy_timeout: u64,
}

impl View for MovedLeaseTracker {
    type V = MovedView;

    closed spec fn view(&self) -> MovedView {
        MovedView {
            obligations: self.obligations@,
            capacity: self.capacity,
            legacy_timeout: self.legacy_timeout,
        }
    }
}

/// A duty at a later time.
pub open spec fn aged(entry: MovedEntry, now: u64, timeout: u64) -> MovedEntry {
    match entry.obligation {
        MovedLeaseObligation::Pending { first_notified } => if elapsed(now, first_notified) >= timeout {
            MovedEntry { obligation: MovedLeaseObligation::LegacyTimedOut, ..entry }
        } else {
            entry
        },
        MovedLeaseObligation::LegacyTimedOut => entry,
    }
}

impl MovedView {
    /// The duties at a later time, of one client or of all.
    pub open spec fn at(self, client: Option<u64>, now: u64) -> MovedView {
        MovedView {
            obligations: self.obligations.map_values(
                |entry: MovedEntry|
                    if client is None || client == Some(entry.client_id) {
                        aged(entry, now, self.legacy_timeout)
                    } else {
                        entry
                    },
            ),
            ..self
        }
    }

    /// The client has a duty that counts.
    pub open spec fn live(self, client: u64, now: u64) -> bool {
        exists|place: Seq<u8>| #[trigger]
            self.obligations.contains_key(place) && self.obligations[place].client_id == client && aged(
                self.obligations[place],
                now,
                self.legacy_timeout,
            ).obligation is Pending
    }

    /// What comes of telling a client that an export has moved.
    pub open spec fn noted(self, client_id: u64, export_id: ExportId, now: u64) -> (MovedView, Result<(), NfsStatus>) {
        let later = self.at(None, now);
        let place = moved_place(client_id, export_id);
        if later.obligations.contains_key(place) {
            (later, Ok(()))
        } else if later.obligations.dom().len() >= self.capacity {
            (later, Err(NfsStatus::Resource))
        } else {
            (
                MovedView {
                    obligations: later.obligations.insert(
                        place,
                        MovedEntry {
                            client_id,
                            export_id,
                            obligation: MovedLeaseObligation::Pending { first_notified: now },
                        },
                    ),
                    ..later
                },
                Ok(()),
            )
        }
    }

    /// The duties without those of a client.
    pub open spec fn without(self, client: u64) -> MovedView {
        MovedView {
            obligations: Map::new(
                |place: Seq<u8>|
                    self.obligations.contains_key(place) && self.obligations[place].client_id != client,
                |place: Seq<u8>| self.obligations[place],
            ),
            ..self
        }
    }
}

impl MovedLeaseTracker {
    /// No duties. A client that does not look for two lease periods is left alone.
    pub fn new(capacity: usize, lease_duration: u64) -> (tracker: MovedLeaseTracker)
        ensures
            tracker@ == (MovedView {
                obligations: Map::empty(),
                capacity,
                legacy_timeout: if 2 * lease_duration > u64::MAX {
                    u64::MAX
                } else {
                    (2 * lease_duration) as u64
                },
            }),
    {
        let legacy_timeout: u64 = if lease_duration > u64::MAX / 2 {
            u64::MAX
        } else {
            lease_duration * 2
        };
        MovedLeaseTracker { obligations: ByteMap::new(), capacity, legacy_timeout }
    }

    /// The number of duties.
    pub fn entries(&self) -> (count: usize)
        ensures
            count == self@.obligations.dom().len(),
    {
        self.obligations.len()
    }

    /// Whether a client has any duty at all.
    pub fn has_client(&self, client_id: u64) -> (found: bool)
        ensures
            found == exists|place: Seq<u8>| #[trigger]
                self@.obligations.contains_key(place) && self@.obligations[place].client_id == client_id,
    {
        self.obligations.order_known();
        let ghost keys = self.obligations.keys();
        let count: usize = self.obligations.len();
        let mut i: usize = 0;
        while i < count
            invariant
                i <= count,
                count == keys.len(),
                keys == self.obligations.keys(),
                forall|j: int| 0 <= j < keys.len() ==> self.obligations@.contains_key(#[trigger] keys[j]),
                forall|j: int|
                    0 <= j < keys.len() ==> self.obligations@[#[trigger] keys[j]] == self.obligations.values()[j],
                forall|j: int| 0 <= j < i ==> self.obligations@[#[trigger] keys[j]].client_id != client_id,
            decreases count - i,
        {
            if self.obligations.value_at(i).client_id == client_id {
                assert(self@.obligations.contains_key(keys[i as int]));
                return true;
            }
            i += 1;
        }
        proof {
            assert forall|place: Seq<u8>| #[trigger]
                self@.obligations.contains_key(place) implies self@.obligations[place].client_id != client_id by {
                assert(self.obligations@.contains_key(place));
                let k = keys.index_of(place);
                assert(keys[k] == place);
            }
        }
        false
    }

    /// Lets time pass for the duties of one client or of all.
    fn expire(&mut self, client: Option<u64>, now: u64)
        ensures
            final(self)@ == old(self)@.at(client, now),
    {
        self.obligations.order_known();
        let ghost before = self.obligations@;
        let ghost keys = self.obligations.keys();
        let count: usize = self.obligations.len();
        let mut later: ByteMap<MovedEntry> = ByteMap::new();
        let mut i: usize = 0;
        while i < count
            invariant
                i <= count,
                count == keys.len(),
                keys == self.obligations.keys(),
                keys.no_duplicates(),
                before == self.obligations@,
                *self == *old(self),
                forall|j: int| 0 <= j < keys.len() ==> self.obligations@.contains_key(#[trigger] keys[j]),
                forall|j: int|
                    0 <= j < keys.len() ==> self.obligations@[#[trigger] keys[j]] == self.obligations.values()[j],
                forall|place: Seq<u8>| #[trigger]
                    later@.contains_key(place) ==> self@.at(client, now).obligations.contains_key(place)
                        && later@[place] == self@.at(client, now).obligations[place],
                forall|j: int| 0 <= j < i ==> later@.contains_key(#[trigger] keys[j]),
            decreases count - i,
        {
            let key = crate::bytes::copy_bytes(self.obligations.key_at(i).as_slice());
            let mut entry: MovedEntry = *self.obligations.value_at(i);
            let concerned = match client {
                Some(client_id) => client_id == entry.client_id,
                None => true,
            };
            if concerned {
                if let MovedLeaseObligation::Pending { first_notified } = entry.obligation {
                    if time_since(now, first_notified) >= self.legacy_timeout {
                        entry.obligation = MovedLeaseObligation::LegacyTimedOut;
                    }
                }
            }
            let _ = later.insert(key, entry);
            i += 1;
        }
        proof {
            assert forall|place: Seq<u8>| before.contains_key(place) implies later@.contains_key(place) by {
                let k = keys.index_of(place);
                assert(keys[k] == place);
            }
        }
        self.obligations = later;
        assert(self@.obligations =~= old(self)@.at(client, now).obligations);
    }

    /// Tells a client that an export has moved. A repetition keeps the first time.
    pub fn note(&mut self, client_id: u64, export_id: ExportId, now: u64) -> (noted: Result<(), NfsStatus>)
        ensures
            (final(self)@, noted) == old(self)@.noted(client_id, export_id, now),
    {
        self.expire(None, now);
        let key = moved_key(client_id, export_id);
        if self.obligations.contains(key.as_slice()) {
            return Ok(());
        }
        if self.obligations.len() >= self.capacity {
            return Err(NfsStatus::Resource);
        }
        let _ = self.obligations.insert(
            key,
            MovedEntry {
                client_id,
                export_id,
                obligation: MovedLeaseObligation::Pending { first_notified: now },
            },
        );
        Ok(())
    }

    /// A client has looked for an export.
    pub fn clear(&mut self, client_id: u64, export_id: ExportId) -> (cleared: bool)
        ensures
            cleared == old(self)@.obligations.contains_key(moved_place(client_id, export_id)),
            final(self)@ == (MovedView {
                obligations: old(self)@.obligations.remove(moved_place(client_id, export_id)),
                ..old(self)@
            }),
    {
        let key = moved_key(client_id, export_id);
        self.obligations.remove(key.as_slice()).is_some()
    }

    /// Whether a client has a duty that counts.
    pub fn has_live(&mut self, client_id: u64, now: u64) -> (live: bool)
        ensures
            live == old(self)@.live(client_id, now),
            final(self)@ == old(self)@.at(Some(client_id), now),
    {
        let ghost before = self@;
        self.expire(Some(client_id), now);
        self.obligations.order_known();
        let ghost keys = self.obligations.keys();
        let count: usize = self.obligations.len();
        let mut i: usize = 0;
        while i < count
            invariant
                i <= count,
                count == keys.len(),
                keys == self.obligations.keys(),
                before == old(self)@,
                self@ == before.at(Some(client_id), now),
                forall|j: int| 0 <= j < keys.len() ==> self.obligations@.contains_key(#[trigger] keys[j]),
                forall|j: int|
                    0 <= j < keys.len() ==> self.obligations@[#[trigger] keys[j]] == self.obligations.values()[j],
                forall|j: int|
                    0 <= j < i ==> !(self.obligations@[#[trigger] keys[j]].client_id == client_id
                        && self.obligations@[keys[j]].obligation is Pending),
            decreases count - i,
        {
            let entry: MovedEntry = *self.obligations.value_at(i);
            if entry.client_id == client_id {
                if let MovedLeaseObligation::Pending { first_notified: _ } = entry.obligation {
                    proof {
                        let place = keys[i as int];
                        assert(self@.obligations.contains_key(place));
                        assert(before.obligations.contains_key(place));
                        assert(before.live(client_id, now));
                    }
                    return true;
                }
            }
            i += 1;
        }
        proof {
            if before.live(client_id, now) {
                let place = choose|place: Seq<u8>| #[trigger]
                    before.obligations.contains_key(place) && before.obligations[place].client_id == client_id && aged(
                        before.obligations[place],
                        now,
                        before.legacy_timeout,
                    ).obligation is Pending;
                assert(self.obligations@.contains_key(place));
                let k = keys.index_of(place);
                assert(keys[k] == place);
            }
        }
        false
    }

    /// Forgets the duties of a client.
    pub fn remove_client(&mut self, client_id: u64)
        ensures
            final(self)@ == old(self)@.without(client_id),
    {
        self.obligations.order_known();
        let ghost before = self.obligations@;
        let ghost keys = self.obligations.keys();
        let count: usize = self.obligations.len();
        let mut kept: ByteMap<MovedEntry> = ByteMap::new();
        let mut i: usize = 0;
        while i < count
            invariant
                i <= count,
                count == keys.len(),
                keys == self.obligations.keys(),
                before == self.obligations@,
                *self == *old(self),
                forall|j: int| 0 <= j < keys.len() ==> self.obligations@.contains_key(#[trigger] keys[j]),
                forall|j: int|
                    0 <= j < keys.len() ==> self.obligations@[#[trigger] keys[j]] == self.obligations.values()[j],
                forall|place: Seq<u8>| #[trigger]
                    kept@.contains_key(place) ==> before.contains_key(place) && before[place].client_id != client_id
                        && kept@[place] == before[place],
                forall|j: int|
                    0 <= j < i && before[#[trigger] keys[j]].client_id != client_id ==> kept@.contains_key(keys[j]),
            decreases count - i,
        {
            let entry: MovedEntry = *self.obligations.value_at(i);
            if entry.client_id != client_id {
                let key = crate::bytes::copy_bytes(self.obligations.key_at(i).as_slice());
                let _ = kept.insert(key, entry);
            }
            i += 1;
        }
        proof {
            assert forall|place: Seq<u8>|
                before.contains_key(place) && before[place].client_id != client_id implies kept@.contains_key(
                place,
            ) by {
                let k = keys.index_of(place);
                assert(keys[k] == place);
            }
        }
        self.obligations = kept;
        assert(self@.obligations =~= old(self)@.without(client_id).obligations);
    }
}

/// There are never more duties than the bound.
pub proof fn lemma_moved_bounded(tracker: MovedView, client_id: u64, export_id: ExportId, now: u64)
    requires
        tracker.obligations.dom().finite(),
        tracker.obligations.dom().len() <= tracker.capacity,
    ensures
        ({
            let after = tracker.noted(client_id, export_id, now).0;
            &&& after.obligations.dom().finite()
            &&& after.obligations.dom().len() <= after.capacity
        }),
{
    let later = tracker.at(None, now);
    assert(later.obligations.dom() =~= tracker.obligations.dom());
}

/// A client that was left alone is not bothered again about that export.
pub proof fn lemma_timed_out_stays(tracker: MovedView, client_id: u64, export_id: ExportId, now: u64)
    requires
        tracker.obligations.contains_key(moved_place(client_id, export_id)),
        tracker.obligations[moved_place(client_id, export_id)].obligation is LegacyTimedOut,
    ensures
        tracker.noted(client_id, export_id, now).1 is Ok,
        tracker.noted(client_id, export_id, now).0.obligations[moved_place(
            client_id,
            export_id,
        )].obligation is LegacyTimedOut,
{
}

/// Telling a client again does not put off the end of its duty.
pub proof fn lemma_first_notice_counts(tracker: MovedView, client_id: u64, export_id: ExportId, first: u64, now: u64)
    requires
        tracker.obligations.contains_key(moved_place(client_id, export_id)),
        tracker.obligations[moved_place(client_id, export_id)].obligation == (MovedLeaseObligation::Pending {
            first_notified: first,
        }),
        elapsed(now, first) < tracker.legacy_timeout,
    ensures
        tracker.noted(client_id, export_id, now).0.obligations[moved_place(client_id, export_id)].obligation == (
        MovedLeaseObligation::Pending { first_notified: first }),
{
}

} // verus!
