//! Clients whose state ends: because their lease is over, or because they are replaced.

use vstd::prelude::*;

use crate::bytemap::ByteMap;
use crate::bytes::copy_bytes;
use crate::files::files_without;
use crate::journal::{ChangeView, PersistBatch};
use crate::protocol::state_token;
use crate::record::{JournalKey, KeyView, ReplayOwnerKind};
use crate::registry::{
    client_places, drop_client, lists_client, place_views, without_client, Owner, PendingPinRelease, ReleasedOpen,
    StateRegistry, StateView,
};
use crate::runtime::{Nfs4Runtime, RuntimeView};
use crate::stateid::{
    active_views, client_retired, client_states, ActiveView, StateDisposition, StatePayload, TableView,
};

verus! {

/// The states of a client.
pub open spec fn states_of(state: StateView, client: u64) -> Seq<ActiveView> {
    client_states(state.stateids.boot_tag, state.stateids.slots, client, state.stateids.slots.len())
}

/// The key of the record of a state.
pub open spec fn state_key(state: ActiveView) -> KeyView {
    let token = crate::codec::be32(state.sequence_id) + state.other;
    match state.payload {
        StatePayload::Open(_) => KeyView::Open { state_token: token },
        StatePayload::Lock(_) => KeyView::Lock { state_token: token },
    }
}

/// The states are deleted from the journal.
pub open spec fn state_changes(states: Seq<ActiveView>) -> Seq<ChangeView> {
    Seq::new(states.len(), |i: int| ChangeView::Delete { key: state_key(states[i]) })
}

/// The last replies to owners are deleted from the journal.
pub open spec fn owner_changes(owners: Map<Seq<u8>, Owner>, places: Seq<Seq<u8>>, kind: ReplayOwnerKind) -> Seq<ChangeView> {
    Seq::new(
        places.len(),
        |i: int|
            ChangeView::Delete {
                key: KeyView::Replay {
                    client_id: owners[places[i]].key.client_id,
                    owner_kind: kind,
                    owner: owners[places[i]].key.owner@,
                },
            },
    )
}

/// What the end of a client changes in the journal, with its owners in some order.
pub open spec fn revocation_changes(state: StateView, client: u64, opens: Seq<Seq<u8>>, locks: Seq<Seq<u8>>) -> Seq<
    ChangeView,
> {
    seq![ChangeView::Delete { key: KeyView::Client { client_id: client } }] + state_changes(states_of(state, client))
        + owner_changes(state.open_owners, opens, ReplayOwnerKind::Open) + owner_changes(
        state.lock_owners,
        locks,
        ReplayOwnerKind::Lock,
    )
}

/// The changes are those of the end of a client.
pub open spec fn revokes(state: StateView, client: u64, changes: Seq<ChangeView>) -> bool {
    exists|opens: Seq<Seq<u8>>, locks: Seq<Seq<u8>>|
        lists_client(opens, state.open_owners, client) && lists_client(locks, state.lock_owners, client) && changes
            == #[trigger] revocation_changes(state, client, opens, locks)
}

impl StateRegistry {
    /// The batch with the deletion of the last replies to owners.
    fn append_owners(
        &self,
        batch: PersistBatch,
        owners: &ByteMap<Owner>,
        places: &Vec<Vec<u8>>,
        kind: ReplayOwnerKind,
        Ghost(client): Ghost<u64>,
    ) -> (after: PersistBatch)
        requires
            lists_client(place_views(places@), owners@, client),
        ensures
            after@ == batch@ + owner_changes(owners@, place_views(places@), kind),
    {
        let ghost before = batch@;
        let ghost views = place_views(places@);
        let ghost changes = owner_changes(owners@, views, kind);
        let mut batch = batch;
        let mut i: usize = 0;
        while i < places.len()
            invariant
                i <= places@.len(),
                views == place_views(places@),
                lists_client(views, owners@, client),
                changes == owner_changes(owners@, views, kind),
                batch@ == before + changes.take(i as int),
            decreases places@.len() - i,
        {
            assert(views[i as int] == places@[i as int]@);
            assert(views.contains(views[i as int]));
            if let Some(owner) = owners.get(places[i].as_slice()) {
                batch = batch.delete(
                    JournalKey::Replay {
                        client_id: owner.key.client_id,
                        owner_kind: kind,
                        owner: copy_bytes(owner.key.owner.as_slice()),
                    },
                );
                assert(changes.take(i + 1) =~= changes.take(i as int).push(changes[i as int]));
                assert(batch@ =~= before + changes.take(i + 1));
            }
            i += 1;
        }
        assert(changes.take(places@.len() as int) =~= changes);
        batch
    }

    /// The batch with what the end of a client changes.
    pub fn append_client_revocation(&self, batch: PersistBatch, client: u64) -> (after: PersistBatch)
        ensures
            exists|changes: Seq<ChangeView>| #[trigger] revokes(self@, client, changes) && after@ == batch@ + changes,
    {
        let ghost before = batch@;
        let mut batch = batch.delete(JournalKey::Client { client_id: client });
        let states = self.stateids.active_records_for_client(client);
        let ghost views = states_of(self@, client);
        let ghost first = before.push(ChangeView::Delete { key: KeyView::Client { client_id: client } });
        let ghost changes = state_changes(views);
        let mut i: usize = 0;
        while i < states.len()
            invariant
                i <= states@.len(),
                active_views(states@) == views,
                changes == state_changes(views),
                batch@ == first + changes.take(i as int),
            decreases states@.len() - i,
        {
            assert(views[i as int] == states@[i as int]@);
            let token = state_token(states[i].state_id);
            batch = match &states[i].payload {
                StatePayload::Open(_) => batch.delete(JournalKey::Open { state_token: token }),
                StatePayload::Lock(_) => batch.delete(JournalKey::Lock { state_token: token }),
            };
            assert(changes.take(i + 1) =~= changes.take(i as int).push(changes[i as int]));
            assert(batch@ =~= first + changes.take(i + 1));
            i += 1;
        }
        assert(changes.take(states@.len() as int) =~= changes);
        let opens = client_places(&self.open_owners, client);
        let locks = client_places(&self.lock_owners, client);
        let batch = self.append_owners(batch, &self.open_owners, &opens, ReplayOwnerKind::Open, Ghost(client));
        let batch = self.append_owners(batch, &self.lock_owners, &locks, ReplayOwnerKind::Lock, Ghost(client));
        proof {
            let all = revocation_changes(self@, client, place_views(opens@), place_views(locks@));
            assert(batch@ =~= before + all);
            assert(revokes(self@, client, all));
        }
        batch
    }
}

/// The registry once the files of the first `n` states are to be let go.
pub open spec fn pins_queued(state: StateView, states: Seq<ActiveView>, client: u64, n: nat) -> StateView
    decreases n,
{
    if n == 0 {
        state
    } else {
        let before = pins_queued(state, states, client, (n - 1) as nat);
        match states[n - 1].payload {
            StatePayload::Open(open) => before.pin_queued(
                ReleasedOpen { client_id: client, file: states[n - 1].file, pin: open.pin },
            ),
            StatePayload::Lock(_) => before,
        }
    }
}

/// The opens without those that ended, among the first `n` states.
pub open spec fn ancestry_left(map: Map<Seq<u8>, [u8; 12]>, states: Seq<ActiveView>, n: nat) -> Map<Seq<u8>, [u8; 12]>
    decreases n,
{
    if n == 0 {
        map
    } else {
        let before = ancestry_left(map, states, (n - 1) as nat);
        match states[n - 1].payload {
            StatePayload::Open(_) => before.remove(states[n - 1].other),
            StatePayload::Lock(_) => before,
        }
    }
}

/// The files of the client's opens can be put on the list of those to be let go.
pub open spec fn revocable(state: StateView, client: u64) -> bool {
    let states = states_of(state, client);
    &&& state.stateids.count() + state.pending_pin_releases.len() <= state.stateids.capacity
    &&& forall|k: nat|
        k < states.len() && states[k as int].payload is Open ==> !(#[trigger] pins_queued(state, states, client, k)).pin_pending(
            pins_queued(state, states, client, k).next_pin_release_id,
        )
}

/// Files that are to be let go change nothing but their list.
pub proof fn lemma_pins_queued(state: StateView, states: Seq<ActiveView>, client: u64, n: nat)
    ensures
        pins_queued(state, states, client, n) == (StateView {
            pending_pin_releases: pins_queued(state, states, client, n).pending_pin_releases,
            next_pin_release_id: pins_queued(state, states, client, n).next_pin_release_id,
            ..state
        }),
        pins_queued(state, states, client, n).pending_pin_releases.len() >= state.pending_pin_releases.len(),
        pins_queued(state, states, client, n).pending_pin_releases.take(state.pending_pin_releases.len() as int)
            == state.pending_pin_releases,
    decreases n,
{
    if n > 0 {
        lemma_pins_queued(state, states, client, (n - 1) as nat);
        let before = pins_queued(state, states, client, (n - 1) as nat).pending_pin_releases;
        let after = pins_queued(state, states, client, n).pending_pin_releases;
        assert(after.take(state.pending_pin_releases.len() as int) =~= before.take(
            state.pending_pin_releases.len() as int,
        ));
    } else {
        assert(state.pending_pin_releases.take(state.pending_pin_releases.len() as int)
            =~= state.pending_pin_releases);
    }
}

/// The registry once a client's state has ended.
pub open spec fn revoked_state(state: StateView, client: u64, disposition: StateDisposition) -> StateView {
    let states = states_of(state, client);
    let queued = pins_queued(state, states, client, states.len());
    StateView {
        stateids: TableView {
            slots: client_retired(state.stateids.slots, client, disposition, state.stateids.slots.len()),
            ..state.stateids
        },
        reclaimed_open_ancestry: ancestry_left(state.reclaimed_open_ancestry, states, states.len()),
        open_owners: without_client(state.open_owners, client),
        lock_owners: without_client(state.lock_owners, client),
        open_by_owner_file: without_client(state.open_by_owner_file, client),
        lock_by_state: without_client(state.lock_by_state, client),
        ..queued
    }
}

/// The server once a client's state has ended.
pub open spec fn revoked(view: RuntimeView, client: u64, disposition: StateDisposition) -> RuntimeView {
    RuntimeView {
        state: revoked_state(view.state, client, disposition),
        files: files_without(view.files, client),
        ..view
    }
}

impl Nfs4Runtime {
    /// Ends the state of a client. The files of its opens go on the list of those to be let go.
    pub fn revoke_client(&mut self, client: u64, disposition: StateDisposition) -> (releases: Vec<PendingPinRelease>)
        requires
            revocable(old(self)@.state, client),
        ensures
            final(self)@ == revoked(old(self)@, client, disposition),
            final(self)@.state.pending_pin_releases == old(self)@.state.pending_pin_releases + releases@,
    {
        let ghost before = self@;
        let ghost state = before.state;
        let states = self.state.stateids.active_records_for_client(client);
        let ghost views = states_of(state, client);
        self.state.stateids.set_client_disposition(client, disposition);
        let mut releases: Vec<PendingPinRelease> = Vec::new();
        let mut i: usize = 0;
        while i < states.len()
            invariant
                i <= states@.len(),
                active_views(states@) == views,
                views == states_of(state, client),
                revocable(state, client),
                self@.clients == before.clients,
                self@.files == before.files,
                self@.limits == before.limits,
                self@.write_verifier == before.write_verifier,
                self@.state == (StateView {
                    stateids: TableView {
                        slots: client_retired(state.stateids.slots, client, disposition, state.stateids.slots.len()),
                        ..state.stateids
                    },
                    reclaimed_open_ancestry: ancestry_left(state.reclaimed_open_ancestry, views, i as nat),
                    ..pins_queued(state, views, client, i as nat)
                }),
                self@.state.pending_pin_releases == state.pending_pin_releases + releases@,
            decreases states@.len() - i,
        {
            assert(views[i as int] == states@[i as int]@);
            if let StatePayload::Open(open) = &states[i].payload {
                proof {
                    let one = self@.state;
                    let two = pins_queued(state, views, client, i as nat);
                    assert(!two.pin_pending(two.next_pin_release_id));
                    assert(one.pending_pin_releases == two.pending_pin_releases);
                    assert(!one.pin_pending(one.next_pin_release_id));
                }
                let released = ReleasedOpen { client_id: client, file: states[i].file, pin: open.pin };
                releases.push(PendingPinRelease { release_id: self.state.next_pin_release_id, open: released });
                self.state.queue_pin_release(released);
                let _ = self.state.reclaimed_open_ancestry.remove(states[i].state_id.other.as_slice());
                assert(self@.state.pending_pin_releases =~= state.pending_pin_releases + releases@);
            }
            i += 1;
        }
        drop_client(&mut self.state.open_owners, client);
        drop_client(&mut self.state.lock_owners, client);
        drop_client(&mut self.state.open_by_owner_file, client);
        drop_client(&mut self.state.lock_by_state, client);
        self.files.release_client(client);
        proof {
            lemma_pins_queued(state, views, client, views.len());
        }
        assert(self@.state =~= revoked_state(state, client, disposition));
        releases
    }
}

} // verus!
