//! Clients that confirm their registration, and what is asked about clients.

use std::sync::Arc;

use vstd::prelude::*;

use crate::bytes::{array_equal, copy_bytes};
use crate::clients::{stable_client, CallbackClient, ClientSlot, ClientsView, Registration};
use crate::codec::ExportId;
use crate::identity::{canonical_client_identity, canonical_identity, same_client_identity, same_identity, Principal, PrincipalView};
use crate::idlist::IdList;
use crate::journal::{ChangeView, PersistBatch};
use crate::lease::{moved_place, GraceView, MovedView};
use crate::protocol::{share, Name, NfsStatus};
use crate::record::{JournalKey, KeyView};
use crate::recovery::{identity_key, identity_place};
use crate::registry::StateView;
use crate::runtime::openstate::renewed;
use crate::runtime::register::{confirmed_under, has_running, SetClientIdArgs};
use crate::runtime::revoke::{revocable, revoked, revokes};
use crate::runtime::{Nfs4Runtime, RuntimeView};
use crate::stateid::StateDisposition;

verus! {

/// A confirmation that is not written yet.
pub struct ConfirmPlan {
    pub record: Registration,
    /// The name under which the client registered.
    pub name: Name,
    /// The client that is replaced, which ends.
    pub replaced: Option<u64>,
}

/// What is to be done for a request to confirm.
pub enum ConfirmStep {
    Done(NfsStatus),
    Confirm(ConfirmPlan),
}

/// What is to be done for a request to confirm.
pub open spec fn confirm_told(view: RuntimeView, client_id: u64, confirmation: Seq<u8>, principal: PrincipalView) -> ConfirmStep {
    let clients = view.clients;
    if !clients.client_owners.contains_key(client_id) || !clients.slots.contains_key(
        clients.client_owners[client_id]@,
    ) {
        ConfirmStep::Done(NfsStatus::StaleClientId)
    } else {
        let name = clients.client_owners[client_id];
        let slot = clients.slots[name@];
        if slot.confirmed matches Some(record) && record.client_id == client_id && record.confirmation@
            == confirmation {
            if same_identity(slot.confirmed->0.principal@, principal) {
                ConfirmStep::Done(NfsStatus::Success)
            } else {
                ConfirmStep::Done(NfsStatus::ClientIdInUse)
            }
        } else {
            match slot.unconfirmed {
                None => ConfirmStep::Done(NfsStatus::StaleClientId),
                Some(record) => {
                    let replaced = match slot.confirmed {
                        Some(previous) => if previous.client_id != client_id {
                            Some(previous.client_id)
                        } else {
                            None
                        },
                        None => None,
                    };
                    if record.client_id != client_id || record.confirmation@ != confirmation {
                        ConfirmStep::Done(NfsStatus::StaleClientId)
                    } else if !same_identity(record.principal@, principal) {
                        ConfirmStep::Done(NfsStatus::ClientIdInUse)
                    } else if replaced matches Some(previous) && has_running(view.state, previous) {
                        ConfirmStep::Done(NfsStatus::Delay)
                    } else {
                        ConfirmStep::Confirm(ConfirmPlan { record, name, replaced })
                    }
                },
            }
        }
    }
}

/// What a confirmation changes in the journal, with the end of the client that is replaced.
pub open spec fn confirms(state: StateView, plan: ConfirmPlan, changes: Seq<ChangeView>) -> bool {
    exists|revocation: Seq<ChangeView>|
        changes == #[trigger] confirm_changes(plan, revocation) && match plan.replaced {
            Some(client) => revokes(state, client, revocation),
            None => revocation.len() == 0,
        }
}

/// What a confirmation changes in the journal.
pub open spec fn confirm_changes(plan: ConfirmPlan, revocation: Seq<ChangeView>) -> Seq<ChangeView> {
    seq![
        ChangeView::Put {
            key: KeyView::Client { client_id: plan.record.client_id },
            record: stable_client(plan.record, true),
        },
    ] + revocation
}

/// The numbers that the client of a registration had before.
pub open spec fn recovered_numbers(clients: ClientsView, record: Registration) -> Set<u64> {
    let place = identity_place(record.owner@, record.verifier@, canonical_identity(record.principal@));
    if clients.recovered_clients.contains_key(place) {
        clients.recovered_clients[place]
    } else {
        Set::empty()
    }
}

/// The clients once a registration is confirmed.
pub open spec fn confirmed_clients(clients: ClientsView, plan: ConfirmPlan) -> ClientsView {
    let client = plan.record.client_id;
    let previous = recovered_numbers(clients, plan.record);
    let reclaims = plan.record.reclaimable && previous != Set::<u64>::empty();
    let known = ClientsView {
        slots: clients.slots.insert(plan.name@, ClientSlot { confirmed: Some(plan.record), unconfirmed: None }),
        recovery: if reclaims {
            GraceView { reclaimable: clients.recovery.reclaimable.insert(client), ..clients.recovery }
        } else {
            clients.recovery
        },
        current_to_previous: if reclaims {
            clients.current_to_previous.insert(client, previous)
        } else {
            clients.current_to_previous
        },
        ..clients
    };
    match plan.replaced {
        None => known,
        Some(old) => ClientsView {
            client_owners: known.client_owners.remove(old),
            expired: known.expired.insert(old),
            current_to_previous: known.current_to_previous.remove(old),
            moved_leases: known.moved_leases.without(old),
            ..known
        },
    }
}

impl Nfs4Runtime {
    /// Asks to confirm a registration.
    pub fn confirm_client(&self, client_id: u64, confirmation: [u8; 8], principal: &Principal) -> (step: ConfirmStep)
        ensures
            step == confirm_told(self@, client_id, confirmation@, principal@),
    {
        let name = match self.clients.client_owners.get(client_id) {
            Some(name) => share(name),
            None => {
                return ConfirmStep::Done(NfsStatus::StaleClientId);
            },
        };
        let slot = match self.clients.slots.get(name.as_slice()) {
            Some(slot) => slot.copy(),
            None => {
                return ConfirmStep::Done(NfsStatus::StaleClientId);
            },
        };
        let mut replaced: Option<u64> = None;
        if let Some(record) = &slot.confirmed {
            if record.client_id == client_id && array_equal(&record.confirmation, &confirmation) {
                return if same_client_identity(&record.principal, principal) {
                    ConfirmStep::Done(NfsStatus::Success)
                } else {
                    ConfirmStep::Done(NfsStatus::ClientIdInUse)
                };
            }
            if record.client_id != client_id {
                replaced = Some(record.client_id);
            }
        }
        let record = match slot.unconfirmed {
            Some(record) => record,
            None => {
                return ConfirmStep::Done(NfsStatus::StaleClientId);
            },
        };
        if record.client_id != client_id || !array_equal(&record.confirmation, &confirmation) {
            return ConfirmStep::Done(NfsStatus::StaleClientId);
        }
        if !same_client_identity(&record.principal, principal) {
            return ConfirmStep::Done(NfsStatus::ClientIdInUse);
        }
        if let Some(previous) = replaced {
            if self.state.client_has_live_owner_reservation(previous) {
                return ConfirmStep::Done(NfsStatus::Delay);
            }
        }
        ConfirmStep::Confirm(ConfirmPlan { record, name, replaced })
    }

    /// What a confirmation changes in the journal.
    pub fn confirm_batch(&self, plan: &ConfirmPlan) -> (batch: PersistBatch)
        ensures
            confirms(self@.state, *plan, batch@),
    {
        let mut batch = PersistBatch::default().put(
            JournalKey::Client { client_id: plan.record.client_id },
            plan.record.stable(true),
        );
        let ghost first = batch@;
        let ghost mut revocation: Seq<ChangeView> = seq![];
        if let Some(client) = plan.replaced {
            batch = self.state.append_client_revocation(batch, client);
            proof {
                revocation = choose|changes: Seq<ChangeView>| #[trigger]
                    revokes(self@.state, client, changes) && batch@ == first + changes;
            }
        }
        assert(batch@ =~= first + revocation);
        assert(batch@ =~= confirm_changes(*plan, revocation));
        batch
    }

    /// Finishes a confirmation once it was written to the journal, or could not be.
    pub fn finish_confirm(&mut self, plan: ConfirmPlan, persisted: bool) -> (status: NfsStatus)
        requires
            persisted && plan.replaced is Some ==> revocable(old(self)@.state, plan.replaced->0),
        ensures
            status == if persisted {
                NfsStatus::Success
            } else {
                NfsStatus::Resource
            },
            final(self)@ == if !persisted {
                old(self)@
            } else {
                let left = match plan.replaced {
                    Some(client) => revoked(old(self)@, client, StateDisposition::LeaseExpired),
                    None => old(self)@,
                };
                RuntimeView { clients: confirmed_clients(old(self)@.clients, plan), ..left }
            },
    {
        let ghost before = self@;
        if !persisted {
            return NfsStatus::Resource;
        }
        let client = plan.record.client_id;
        let canonical = canonical_client_identity(&plan.record.principal);
        let identity = identity_key(plan.record.owner.as_slice(), &plan.record.verifier, canonical.as_slice());
        let previous = match self.clients.recovered_clients.get(identity.as_slice()) {
            Some(previous) => previous.copy(),
            None => IdList::new(),
        };
        assert(previous@ == recovered_numbers(before.clients, plan.record));
        let reclaimable = plan.record.reclaimable;
        let _ = self.clients.slots.insert(
            copy_bytes(plan.name.as_slice()),
            ClientSlot { confirmed: Some(plan.record), unconfirmed: None },
        );
        if reclaimable && !previous.is_empty() {
            self.clients.recovery.add_reclaimable(client);
            let _ = self.clients.current_to_previous.insert(client, previous);
            assert(self@.clients.current_to_previous =~= before.clients.current_to_previous.insert(
                client,
                previous@,
            ));
        }
        let ghost known = self@.clients;
        if let Some(old_client) = plan.replaced {
            let _ = self.clients.client_owners.remove(old_client);
            let _ = self.clients.expired.insert(old_client, ());
            let _ = self.clients.current_to_previous.remove(old_client);
            assert(self@.clients.current_to_previous =~= known.current_to_previous.remove(old_client));
            self.clients.moved_leases.remove_client(old_client);
            let _ = self.revoke_client(old_client, StateDisposition::LeaseExpired);
        }
        assert(self@.clients =~= confirmed_clients(before.clients, plan));
        NfsStatus::Success
    }

    /// Renews the lease of a client.
    pub fn renew(&mut self, client_id: u64, principal: &Principal, now: u64) -> (status: NfsStatus)
        ensures
            status == match old(self)@.clients.touch_refused(client_id, principal@, NfsStatus::StaleClientId, now) {
                Some(error) => error.status,
                None => NfsStatus::Success,
            },
            final(self)@ == renewed(old(self)@, client_id, principal@, now),
    {
        match self.clients.touch(client_id, principal, NfsStatus::StaleClientId, now) {
            Ok(()) => NfsStatus::Success,
            Err(error) => error.status,
        }
    }

    /// Says whether a client is known and may go on, and renews its lease.
    pub fn validate_client(&mut self, client_id: u64, principal: &Principal, now: u64) -> (status: NfsStatus)
        ensures
            status == match old(self)@.clients.touch_refused(client_id, principal@, NfsStatus::StaleClientId, now) {
                Some(error) => error.status,
                None => NfsStatus::Success,
            },
            final(self)@ == renewed(old(self)@, client_id, principal@, now),
    {
        self.renew(client_id, principal, now)
    }

    /// Takes note that a client was told that a file system has moved.
    pub fn note_moved_export(&mut self, client_id: u64, export_id: ExportId, principal: &Principal, now: u64) -> (noted:
        Result<(), NfsStatus>)
        ensures
            match old(self)@.clients.confirmed(client_id, principal@, NfsStatus::StaleClientId) {
                Err(status) => noted == Err::<(), NfsStatus>(status) && final(self)@ == old(self)@,
                Ok(_) => {
                    let after = old(self)@.clients.moved_leases.noted(client_id, export_id, now);
                    &&& noted == after.1
                    &&& final(self)@ == (RuntimeView {
                        clients: ClientsView { moved_leases: after.0, ..old(self)@.clients },
                        ..old(self)@
                    })
                },
            },
    {
        match self.clients.confirmed_client_record(client_id, principal, NfsStatus::StaleClientId) {
            Ok(_) => {},
            Err(status) => {
                return Err(status);
            },
        }
        self.clients.moved_leases.note(client_id, export_id, now)
    }

    /// Takes note that a client has looked for file systems that have moved.
    pub fn complete_moved_export_probes(&mut self, client_id: u64, export_ids: &Vec<ExportId>, principal: &Principal) -> (done:
        Result<(), NfsStatus>)
        ensures
            match old(self)@.clients.confirmed(client_id, principal@, NfsStatus::StaleClientId) {
                Err(status) => done == Err::<(), NfsStatus>(status) && final(self)@ == old(self)@,
                Ok(_) => done is Ok && final(self)@ == (RuntimeView {
                    clients: ClientsView {
                        moved_leases: probed(
                            old(self)@.clients.moved_leases,
                            client_id,
                            export_ids@,
                            export_ids@.len(),
                        ),
                        ..old(self)@.clients
                    },
                    ..old(self)@
                }),
            },
    {
        match self.clients.confirmed_client_record(client_id, principal, NfsStatus::StaleClientId) {
            Ok(_) => {},
            Err(status) => {
                return Err(status);
            },
        }
        let ghost before = self@;
        let mut i: usize = 0;
        while i < export_ids.len()
            invariant
                i <= export_ids@.len(),
                self@ == (RuntimeView {
                    clients: ClientsView {
                        moved_leases: probed(before.clients.moved_leases, client_id, export_ids@, i as nat),
                        ..before.clients
                    },
                    ..before
                }),
            decreases export_ids@.len() - i,
        {
            let _ = self.clients.moved_leases.clear(client_id, export_ids[i]);
            i += 1;
        }
        Ok(())
    }

    /// How a client is called back, and by whom it registered.
    pub fn confirmed_client_callback(&self, client_id: u64, principal: &Principal) -> (record: Result<
        Registration,
        NfsStatus,
    >)
        ensures
            record == self@.clients.confirmed(client_id, principal@, NfsStatus::StaleClientId),
    {
        self.clients.confirmed_client_record(client_id, principal, NfsStatus::StaleClientId)
    }

    /// The numbers that a client had before the restart.
    pub fn previous_client_ids(&self, client_id: u64, principal: &Principal) -> (ids: Result<IdList, NfsStatus>)
        ensures
            match self@.clients.confirmed(client_id, principal@, NfsStatus::StaleClientId) {
                Err(status) => ids == Err::<IdList, NfsStatus>(status),
                Ok(_) => ids is Ok && ids->Ok_0@ == self@.clients.previous(client_id),
            },
    {
        match self.clients.confirmed_client_record(client_id, principal, NfsStatus::StaleClientId) {
            Ok(_) => Ok(self.clients.previous_ids(client_id)),
            Err(status) => Err(status),
        }
    }

    /// The client that uses a name, where the sender is another.
    pub fn setclientid_principal_collision(&self, args: &SetClientIdArgs, principal: &Principal) -> (collision: Option<
        SetClientIdPrincipalCollision,
    >)
        ensures
            match confirmed_under(self@.clients, args.id@) {
                Some(record) => if same_identity(record.principal@, principal@) {
                    collision is None
                } else {
                    &&& collision is Some
                    &&& collision->0.client_id == record.client_id
                    &&& collision->0.previous_client_ids@ == self@.clients.previous(record.client_id)
                    &&& collision->0.client_using == record.callback
                },
                None => collision is None,
            },
    {
        match self.clients.slots.get(args.id.as_slice()) {
            None => None,
            Some(slot) => match &slot.confirmed {
                None => None,
                Some(record) => {
                    if same_client_identity(&record.principal, principal) {
                        None
                    } else {
                        Some(
                            SetClientIdPrincipalCollision {
                                client_id: record.client_id,
                                previous_client_ids: self.clients.previous_ids(record.client_id),
                                client_using: share(&record.callback),
                            },
                        )
                    }
                },
            },
        }
    }
}

/// A client that uses a name for which another sender asks.
pub struct SetClientIdPrincipalCollision {
    pub client_id: u64,
    pub previous_client_ids: IdList,
    pub client_using: Arc<CallbackClient>,
}

/// What is left to look for once a client has looked for the first `n` file systems.
pub open spec fn probed(moved: MovedView, client_id: u64, export_ids: Seq<ExportId>, n: nat) -> MovedView
    decreases n,
{
    if n == 0 {
        moved
    } else {
        let before = probed(moved, client_id, export_ids, (n - 1) as nat);
        MovedView { obligations: before.obligations.remove(moved_place(client_id, export_ids[n - 1])), ..before }
    }
}

} // verus!
