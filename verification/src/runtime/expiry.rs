//! Leases that are over, and the time after a restart in which clients reclaim.

use vstd::prelude::*;

use crate::bytemap::ByteMap;
use crate::clients::{expired_bounded, ClientsView};
use crate::journal::{ChangeView, PersistBatch};
use crate::keyset::KeySet;
use crate::lease::GraceView;
use crate::numbermap::NumberMap;
use crate::protocol::NfsStatus;
use crate::record::KeyView;
use crate::registry::{PendingPinRelease, StateView};
use crate::runtime::register::has_running;
use crate::runtime::revoke::{revocable, revoked, revokes};
use crate::runtime::{Nfs4Runtime, RuntimeView};
use crate::stateid::StateDisposition;

verus! {

impl Nfs4Runtime {
    /// Takes note of leases that are over; the clients whose state has to end.
    pub fn begin_expiry(&mut self, now: u64) -> (pending: Vec<u64>)
        ensures
            expiry_begun(old(self)@.clients, final(self)@.clients, now, old(self)@.limits.max_clients),
            final(self)@ == (RuntimeView { clients: final(self)@.clients, ..old(self)@ }),
            pending@.to_set() == final(self)@.clients.pending_expiry,
            pending@.no_duplicates(),
    {
        let ghost before = self@;
        let expired = self.clients.leases.expire_due(now);
        let ghost lapsed: Set<u64> = Set::new(|client: u64| before.clients.leases.lapsed(client, now));
        let mut i: usize = 0;
        while i < expired.len()
            invariant
                i <= expired@.len(),
                self@ == (RuntimeView { clients: self@.clients, ..before }),
                self@.clients == (ClientsView {
                    leases: before.clients.leases.current(now),
                    expired: self@.clients.expired,
                    pending_expiry: self@.clients.pending_expiry,
                    ..before.clients
                }),
                self@.clients.expired =~= before.clients.expired + expired@.take(i as int).to_set(),
                self@.clients.pending_expiry =~= before.clients.pending_expiry + expired@.take(i as int).to_set(),
            decreases expired@.len() - i,
        {
            let _ = self.clients.expired.insert(expired[i], ());
            let _ = self.clients.pending_expiry.insert(expired[i], ());
            proof {
                let next = expired@.take(i + 1);
                assert(next =~= expired@.take(i as int).push(expired@[i as int]));
                assert forall|c: u64| next.to_set().contains(c) == (expired@.take(i as int).to_set().contains(c) || c
                    == expired@[i as int]) by {
                    if next.contains(c) {
                        let p = choose|p: int| 0 <= p < next.len() && next[p] == c;
                        if p < i {
                            assert(expired@.take(i as int)[p] == c);
                        }
                    }
                    if expired@.take(i as int).contains(c) {
                        let p = choose|p: int| 0 <= p < i && expired@.take(i as int)[p] == c;
                        assert(next[p] == c);
                    }
                    assert(next[i as int] == expired@[i as int]);
                }
            }
            i += 1;
        }
        proof {
            assert(expired@.take(expired@.len() as int) =~= expired@);
            assert(expired@.to_set() =~= lapsed);
        }
        let ghost noted = self@.clients;
        self.clients.bound_expired_clientids(self.limits.max_clients);
        self.clients.pending_expiry.order_known();
        let ghost keys = self.clients.pending_expiry.keys();
        let total = self.clients.pending_expiry.len();
        let ghost after = self@;
        let mut pending: Vec<u64> = Vec::new();
        let mut i: usize = 0;
        while i < total
            invariant
                i <= total,
                total == keys.len(),
                keys == self.clients.pending_expiry.keys(),
                self@ == after,
                pending@ == keys.take(i as int),
            decreases total - i,
        {
            pending.push(self.clients.pending_expiry.key_at(i));
            assert(pending@ =~= keys.take(i + 1));
            i += 1;
        }
        assert(pending@ =~= keys);
        pending
    }

    /// What the end of a client whose lease is over changes in the journal; while a request of the client runs, it is
    /// not ended.
    pub fn expiry_batch(&self, client: u64) -> (batch: Option<PersistBatch>)
        ensures
            match batch {
                Some(batch) => !has_running(self@.state, client) && revokes(self@.state, client, batch@),
                None => has_running(self@.state, client),
            },
    {
        if self.state.client_has_live_owner_reservation(client) {
            return None;
        }
        let first = PersistBatch::default();
        let batch = self.state.append_client_revocation(first, client);
        proof {
            let changes = choose|changes: Seq<ChangeView>| #[trigger]
                revokes(self@.state, client, changes) && batch@ == first@ + changes;
            assert(batch@ =~= changes);
        }
        Some(batch)
    }

    /// Ends a client whose lease is over, once its end was written to the journal.
    pub fn finish_expiry(&mut self, client: u64) -> (releases: Vec<PendingPinRelease>)
        requires
            revocable(old(self)@.state, client),
        ensures
            final(self)@ == (RuntimeView {
                clients: ClientsView {
                    pending_expiry: old(self)@.clients.pending_expiry.remove(client),
                    ..old(self)@.clients.unregistered(client)
                },
                ..revoked(old(self)@, client, StateDisposition::LeaseExpired)
            }),
            final(self)@.state.pending_pin_releases == old(self)@.state.pending_pin_releases + releases@,
    {
        let ghost before = self@;
        let releases = self.revoke_client(client, StateDisposition::LeaseExpired);
        self.clients.remove_client_registration(client);
        let _ = self.clients.pending_expiry.remove(client);
        assert(self@.clients =~= (ClientsView {
            pending_expiry: before.clients.pending_expiry.remove(client),
            ..before.clients.unregistered(client)
        }));
        releases
    }

    /// Whether the time to reclaim is over and what was not reclaimed is still there.
    pub fn grace_cleanup_due(&self, now: u64) -> (due: bool)
        ensures
            due == cleanup_due(self@.clients, now),
    {
        self.clients.recovery_had_grace && !self.clients.grace_cleanup_complete && self.clients.recovery.cleanup_due(
            now,
        )
    }

    /// Refuses while clients reclaim.
    pub fn ensure_not_in_grace(&self, now: u64) -> (told: Result<(), NfsStatus>)
        ensures
            told == if self@.clients.recovery.in_grace(now) {
                Err::<(), NfsStatus>(NfsStatus::Grace)
            } else {
                Ok::<(), NfsStatus>(())
            },
    {
        if self.clients.recovery.in_grace(now) {
            Err(NfsStatus::Grace)
        } else {
            Ok(())
        }
    }

    /// What the end of the time to reclaim changes in the journal, where it is due.
    pub fn grace_batch(&self, now: u64) -> (batch: Option<PersistBatch>)
        ensures
            match batch {
                Some(batch) => cleanup_due(self@.clients, now) && deletes_keys(
                    batch@,
                    self@.state.recovered_cleanup_keys,
                ),
                None => !cleanup_due(self@.clients, now),
            },
    {
        if !self.grace_cleanup_due(now) {
            return None;
        }
        let keys = &self.state.recovered_cleanup_keys;
        keys.order_known();
        let ghost listed = keys.listed();
        let total = keys.len();
        let mut batch = PersistBatch::default();
        let mut i: usize = 0;
        while i < total
            invariant
                i <= total,
                total == listed.len(),
                listed == keys.listed(),
                batch@.len() == i,
                forall|j: int| 0 <= j < i ==> #[trigger] batch@[j] == (ChangeView::Delete { key: listed[j] }),
            decreases total - i,
        {
            batch = batch.delete(keys.key_at(i).copy());
            i += 1;
        }
        proof {
            assert(batch@ =~= Seq::new(listed.len(), |j: int| ChangeView::Delete { key: listed[j] }));
            assert(deletion_of(batch@, listed));
        }
        Some(batch)
    }

    /// Ends the time to reclaim, once it was written to the journal.
    pub fn finish_grace(&mut self)
        ensures
            final(self)@ == grace_ended(old(self)@),
    {
        let ghost before = self@;
        self.state.recovered_opens = ByteMap::new();
        self.state.recovered_locks = ByteMap::new();
        self.state.recovered_replays = ByteMap::new();
        self.state.recovered_cleanup_keys = KeySet::new();
        self.state.reserved_recovered_opens = ByteMap::new();
        self.clients.recovered_clients = ByteMap::new();
        self.clients.current_to_previous = NumberMap::new();
        self.clients.recovery.end_grace();
        self.clients.grace_cleanup_complete = true;
        assert(self@.clients.recovered_clients =~= Map::empty());
        assert(self@.clients.current_to_previous =~= Map::empty());
        assert(self@ =~= grace_ended(before));
    }
}

/// Leases that are over are noted, and clients whose state has ended long ago are forgotten.
pub open spec fn expiry_begun(before: ClientsView, after: ClientsView, now: u64, maximum: usize) -> bool {
    let lapsed: Set<u64> = Set::new(|client: u64| before.leases.lapsed(client, now));
    &&& after == (ClientsView {
        leases: before.leases.current(now),
        expired: after.expired,
        pending_expiry: before.pending_expiry + lapsed,
        ..before
    })
    &&& expired_bounded(before.expired + lapsed, after.expired, after.pending_expiry, maximum)
}

/// The time to reclaim is over and what was not reclaimed is still there.
pub open spec fn cleanup_due(clients: ClientsView, now: u64) -> bool {
    clients.recovery_had_grace && !clients.grace_cleanup_complete && clients.recovery.due(now)
}

/// The changes delete the keys of a list.
pub open spec fn deletion_of(changes: Seq<ChangeView>, keys: Seq<KeyView>) -> bool {
    changes == Seq::new(keys.len(), |i: int| ChangeView::Delete { key: keys[i] })
}

/// The changes delete the keys, each once.
pub open spec fn deletes_keys(changes: Seq<ChangeView>, keys: Set<KeyView>) -> bool {
    exists|listed: Seq<KeyView>| listed.no_duplicates() && listed.to_set() == keys && #[trigger] deletion_of(changes, listed)
}

/// The server once the time to reclaim is over.
pub open spec fn grace_ended(view: RuntimeView) -> RuntimeView {
    RuntimeView {
        state: StateView {
            recovered_opens: Map::empty(),
            recovered_locks: Map::empty(),
            recovered_replays: Map::empty(),
            recovered_cleanup_keys: Set::empty(),
            reserved_recovered_opens: Set::empty(),
            ..view.state
        },
        clients: ClientsView {
            recovered_clients: Map::empty(),
            current_to_previous: Map::empty(),
            recovery: GraceView { grace_until: None, reclaimable: Set::empty() },
            grace_cleanup_complete: true,
            ..view.clients
        },
        ..view
    }
}

} // verus!
