//! Clients that register.

use std::sync::Arc;

use vstd::prelude::*;

use crate::bytemap::ByteMap;
use crate::bytes::{array_equal, copy_bytes};
use crate::clients::{free_client, CallbackClient, ClientSlot, ClientsView, Registration};
use crate::identity::{
    canonical_client_identity, canonical_identity, confirmation_message, confirmation_of, same_client_identity,
    same_identity, sha256, Principal, PrincipalView,
};
use crate::idlist::IdList;
use crate::journal::{ChangeView, PersistBatch};
use crate::protocol::{share, Name, NfsStatus};
use crate::record::{JournalKey, KeyView};
use crate::recovery::{identity_key, identity_place, RecoveredLock, RecoveredOpen};
use crate::registry::{Owner, StateRegistry, StateView};
use crate::runtime::revoke::{revocable, revoked, revokes, states_of};
use crate::runtime::{next_number, number_after, Nfs4Runtime, RuntimeView};
use crate::stateid::{active_views, StateDisposition};

verus! {

/// An owner of a client has a request that runs, or has states.
pub open spec fn owner_busy(owner: Owner, client: u64, states: bool) -> bool {
    owner.key.client_id == client && (owner.sequence.pending is Some || states && owner.active_states != 0)
}

/// Some owner of a client has a request that runs, or has states.
pub open spec fn owners_busy(owners: Map<Seq<u8>, Owner>, client: u64, states: bool) -> bool {
    exists|place: Seq<u8>| #[trigger] owners.contains_key(place) && owner_busy(owners[place], client, states)
}

/// Whether some owner of a client has a request that runs, or has states.
fn check_owners_busy(owners: &ByteMap<Owner>, client: u64, states: bool) -> (busy: bool)
    ensures
        busy == owners_busy(owners@, client, states),
{
    owners.order_known();
    let ghost keys = owners.keys();
    let total = owners.len();
    let mut i: usize = 0;
    while i < total
        invariant
            i <= total,
            total == keys.len(),
            keys == owners.keys(),
            keys.len() == owners.values().len(),
            forall|j: int| 0 <= j < keys.len() ==> owners@.contains_key(#[trigger] keys[j]),
            forall|j: int| 0 <= j < keys.len() ==> owners@[#[trigger] keys[j]] == owners.values()[j],
            forall|j: int| 0 <= j < i ==> !owner_busy(owners@[#[trigger] keys[j]], client, states),
        decreases total - i,
    {
        let owner = owners.value_at(i);
        assert(owners@[keys[i as int]] == *owner);
        if owner.key.client_id == client && (owner.sequence.has_pending() || states && owner.active_states != 0) {
            assert(owners@.contains_key(keys[i as int]));
            return true;
        }
        i += 1;
    }
    proof {
        assert forall|place: Seq<u8>| #[trigger] owners@.contains_key(place) implies !owner_busy(
            owners@[place],
            client,
            states,
        ) by {
            assert(keys.contains(place));
        }
    }
    false
}

/// Some open of the run before is one of those clients.
pub open spec fn opens_wait(opens: Map<Seq<u8>, RecoveredOpen>, previous: Set<u64>) -> bool {
    exists|token: Seq<u8>| #[trigger] opens.contains_key(token) && previous.contains(opens[token].previous_client_id)
}

/// Some locks of the run before are those of one of those clients.
pub open spec fn locks_wait(locks: Map<Seq<u8>, RecoveredLock>, previous: Set<u64>) -> bool {
    exists|token: Seq<u8>| #[trigger] locks.contains_key(token) && previous.contains(locks[token].previous_client_id)
}

/// Whether some open of the run before is one of those clients.
fn check_opens_wait(opens: &ByteMap<RecoveredOpen>, previous: &IdList) -> (waiting: bool)
    ensures
        waiting == opens_wait(opens@, previous@),
{
    opens.order_known();
    let ghost keys = opens.keys();
    let total = opens.len();
    let mut i: usize = 0;
    while i < total
        invariant
            i <= total,
            total == keys.len(),
            keys == opens.keys(),
            keys.len() == opens.values().len(),
            forall|j: int| 0 <= j < keys.len() ==> opens@.contains_key(#[trigger] keys[j]),
            forall|j: int| 0 <= j < keys.len() ==> opens@[#[trigger] keys[j]] == opens.values()[j],
            forall|j: int| 0 <= j < i ==> !previous@.contains(opens@[#[trigger] keys[j]].previous_client_id),
        decreases total - i,
    {
        let open = opens.value_at(i);
        assert(opens@[keys[i as int]] == *open);
        if previous.contains(open.previous_client_id) {
            assert(opens@.contains_key(keys[i as int]));
            return true;
        }
        i += 1;
    }
    proof {
        assert forall|token: Seq<u8>| #[trigger] opens@.contains_key(token) implies !previous@.contains(
            opens@[token].previous_client_id,
        ) by {
            assert(keys.contains(token));
        }
    }
    false
}

/// Whether some locks of the run before are those of one of those clients.
fn check_locks_wait(locks: &ByteMap<RecoveredLock>, previous: &IdList) -> (waiting: bool)
    ensures
        waiting == locks_wait(locks@, previous@),
{
    locks.order_known();
    let ghost keys = locks.keys();
    let total = locks.len();
    let mut i: usize = 0;
    while i < total
        invariant
            i <= total,
            total == keys.len(),
            keys == locks.keys(),
            keys.len() == locks.values().len(),
            forall|j: int| 0 <= j < keys.len() ==> locks@.contains_key(#[trigger] keys[j]),
            forall|j: int| 0 <= j < keys.len() ==> locks@[#[trigger] keys[j]] == locks.values()[j],
            forall|j: int| 0 <= j < i ==> !previous@.contains(locks@[#[trigger] keys[j]].previous_client_id),
        decreases total - i,
    {
        let lock = locks.value_at(i);
        assert(locks@[keys[i as int]] == *lock);
        if previous.contains(lock.previous_client_id) {
            assert(locks@.contains_key(keys[i as int]));
            return true;
        }
        i += 1;
    }
    proof {
        assert forall|token: Seq<u8>| #[trigger] locks@.contains_key(token) implies !previous@.contains(
            locks@[token].previous_client_id,
        ) by {
            assert(keys.contains(token));
        }
    }
    false
}

/// A client has state, or may still reclaim some.
pub open spec fn has_state(state: StateView, client: u64, previous: Set<u64>) -> bool {
    states_of(state, client).len() > 0 || owners_busy(state.open_owners, client, true) || owners_busy(
        state.lock_owners,
        client,
        true,
    ) || opens_wait(state.recovered_opens, previous) || locks_wait(state.recovered_locks, previous)
}

/// A request of a client runs.
pub open spec fn has_running(state: StateView, client: u64) -> bool {
    owners_busy(state.open_owners, client, false) || owners_busy(state.lock_owners, client, false)
}

impl StateRegistry {
    /// Whether a client has state, or may still reclaim some.
    pub fn client_has_open_or_lock_state(&self, client: u64, previous: &IdList) -> (found: bool)
        ensures
            found == has_state(self@, client, previous@),
    {
        let states = self.stateids.active_records_for_client(client);
        assert(active_views(states@).len() == states@.len());
        states.len() > 0 || check_owners_busy(&self.open_owners, client, true) || check_owners_busy(
            &self.lock_owners,
            client,
            true,
        ) || check_opens_wait(&self.recovered_opens, previous) || check_locks_wait(&self.recovered_locks, previous)
    }

    /// Whether a request of a client runs.
    pub fn client_has_live_owner_reservation(&self, client: u64) -> (running: bool)
        ensures
            running == has_running(self@, client),
    {
        check_owners_busy(&self.open_owners, client, false) || check_owners_busy(&self.lock_owners, client, false)
    }
}

/// A request to register.
pub struct SetClientIdArgs {
    pub verifier: [u8; 8],
    pub id: Name,
    pub callback: Arc<CallbackClient>,
    pub callback_identifier: u32,
}

/// The answer to a request to register.
#[derive(Clone, Debug, PartialEq, Eq)]
pub enum SetClientIdResult {
    Registered { client_id: u64, confirmation: [u8; 8] },
    /// The name is in use; this is how its user is called back.
    InUse(Arc<CallbackClient>),
    Failed(NfsStatus),
}

/// A registration that is not written yet.
pub struct RegisterPlan {
    pub record: Registration,
    /// The client with the same name and another sender, which ends.
    pub releasing: Option<u64>,
    /// The client of the registration that is replaced.
    pub replacing: Option<u64>,
    pub stale: Vec<u64>,
    /// The client is registered already, and tells how it is called back.
    pub known: bool,
}

/// What is to be done for a request to register.
pub enum RegisterStep {
    Done(SetClientIdResult),
    Register(RegisterPlan),
}

/// The confirmed registration under a name.
pub open spec fn confirmed_under(clients: ClientsView, name: Seq<u8>) -> Option<Registration> {
    if clients.slots.contains_key(name) {
        clients.slots[name].confirmed
    } else {
        None
    }
}

/// The client of the unconfirmed registration under a name.
pub open spec fn unconfirmed_under(clients: ClientsView, name: Seq<u8>) -> Option<u64> {
    if clients.slots.contains_key(name) && clients.slots[name].unconfirmed is Some {
        Some(clients.slots[name].unconfirmed->0.client_id)
    } else {
        None
    }
}

/// How many clients a registration replaces.
pub open spec fn replaced_count(replacing: Option<u64>, releasing: Option<u64>, same: Option<u64>) -> int {
    let one: int = if replacing is Some && replacing != same {
        1
    } else {
        0
    };
    let two: int = if releasing is Some && releasing != same && releasing != replacing {
        1
    } else {
        0
    };
    one + two
}

/// The client that a registration ends.
pub open spec fn releasing_of(clients: ClientsView, args: SetClientIdArgs, principal: PrincipalView) -> Option<u64> {
    match confirmed_under(clients, args.id@) {
        Some(record) => if !same_identity(record.principal@, principal) {
            Some(record.client_id)
        } else {
            None
        },
        None => None,
    }
}

/// The client that is registered already.
pub open spec fn same_incarnation(clients: ClientsView, args: SetClientIdArgs, principal: PrincipalView) -> Option<u64> {
    match confirmed_under(clients, args.id@) {
        Some(record) => if same_identity(record.principal@, principal) && record.verifier@ == args.verifier@ {
            Some(record.client_id)
        } else {
            None
        },
        None => None,
    }
}

/// There is no room for one more client.
pub open spec fn clients_full(view: RuntimeView, clients: ClientsView, args: SetClientIdArgs, principal: PrincipalView) -> bool {
    let same = same_incarnation(clients, args, principal);
    let replaced = replaced_count(
        unconfirmed_under(clients, args.id@),
        releasing_of(clients, args, principal),
        same,
    );
    let count = clients.client_owners.dom().len() - replaced;
    same is None && (if count < 0 {
        0
    } else {
        count
    }) >= view.limits.max_clients
}

/// The number of a client that registers, and the counter to go on with.
pub open spec fn registered_number(clients: ClientsView, args: SetClientIdArgs, principal: PrincipalView) -> (Option<u64>, u32) {
    match same_incarnation(clients, args, principal) {
        Some(client) => (Some(client), clients.next_client),
        None => free_client(clients.client_owners.dom(), clients.boot_tag, clients.next_client, u32::MAX as nat),
    }
}

/// The answer to a request to register that is not carried out.
pub open spec fn register_told(view: RuntimeView, args: SetClientIdArgs, principal: PrincipalView, now: u64) -> Option<
    SetClientIdResult,
> {
    let clients = view.clients.purged(now);
    if args.id@.len() > view.limits.max_client_owner_size {
        Some(SetClientIdResult::Failed(NfsStatus::Resource))
    } else if releasing_of(clients, args, principal) matches Some(client) && has_state(
        view.state,
        client,
        clients.previous(client),
    ) {
        Some(SetClientIdResult::InUse(confirmed_under(clients, args.id@)->0.callback))
    } else if clients_full(view, clients, args, principal) {
        Some(SetClientIdResult::Failed(NfsStatus::Resource))
    } else if registered_number(clients, args, principal).0 is None {
        Some(SetClientIdResult::Failed(NfsStatus::Resource))
    } else {
        None
    }
}

/// The clients once one has asked to register.
pub open spec fn register_asked(view: RuntimeView, args: SetClientIdArgs, principal: PrincipalView, now: u64) -> ClientsView {
    let clients = view.clients.purged(now);
    if args.id@.len() > view.limits.max_client_owner_size {
        view.clients
    } else if releasing_of(clients, args, principal) matches Some(client) && has_state(
        view.state,
        client,
        clients.previous(client),
    ) {
        clients
    } else if clients_full(view, clients, args, principal) {
        clients
    } else {
        let found = registered_number(clients, args, principal);
        ClientsView {
            next_client: found.1,
            next_confirmation: if found.0 is Some {
                number_after(clients.next_confirmation)
            } else {
                clients.next_confirmation
            },
            ..clients
        }
    }
}

/// The registration is the one for the request.
pub open spec fn register_planned(
    view: RuntimeView,
    args: SetClientIdArgs,
    principal: Arc<Principal>,
    now: u64,
    plan: RegisterPlan,
) -> bool {
    let clients = view.clients.purged(now);
    let client_id = registered_number(clients, args, principal@).0->0;
    &&& plan.record.client_id == client_id
    &&& plan.record.owner == args.id
    &&& plan.record.verifier == args.verifier
    &&& plan.record.confirmation@ == sha256(
        confirmation_message(clients.boot_tag, client_id, clients.next_confirmation, args.verifier@),
    ).take(8)
    &&& plan.record.principal == principal
    &&& plan.record.callback == args.callback
    &&& plan.record.callback_identifier == args.callback_identifier
    &&& plan.record.created_at == now
    &&& plan.record.reclaimable == clients.recovered_clients.contains_key(
        identity_place(args.id@, args.verifier@, canonical_identity(principal@)),
    )
    &&& plan.releasing == releasing_of(clients, args, principal@)
    &&& plan.replacing == unconfirmed_under(clients, args.id@)
    &&& forall|client: u64| #[trigger]
        plan.stale@.contains(client) <==> crate::clients::ends_outdated(
            view.clients.slots,
            client,
            now,
            view.clients.lease_duration,
        )
    &&& crate::clients::lists_outdated(view.clients.slots, now, view.clients.lease_duration, plan.stale@)
    &&& plan.known == (same_incarnation(clients, args, principal@) is Some)
}

impl Nfs4Runtime {
    /// Asks to register a client.
    pub fn set_client_id(&mut self, args: &SetClientIdArgs, principal: &Arc<Principal>, now: u64) -> (step: RegisterStep)
        ensures
            match register_told(old(self)@, *args, principal@, now) {
                Some(result) => step == RegisterStep::Done(result),
                None => step is Register && register_planned(old(self)@, *args, *principal, now, step->Register_0),
            },
            final(self)@ == (RuntimeView {
                clients: register_asked(old(self)@, *args, principal@, now),
                ..old(self)@
            }),
    {
        let ghost before = self@;
        if args.id.len() > self.limits.max_client_owner_size {
            return RegisterStep::Done(SetClientIdResult::Failed(NfsStatus::Resource));
        }
        let stale = self.clients.purge_unconfirmed(now);
        let ghost clients = self@.clients;
        let found = match self.clients.slots.get(args.id.as_slice()) {
            Some(slot) => slot.copy(),
            None => ClientSlot { confirmed: None, unconfirmed: None },
        };
        let replacing = match &found.unconfirmed {
            Some(record) => Some(record.client_id),
            None => None,
        };
        assert(found.confirmed == confirmed_under(clients, args.id@));
        assert(replacing == unconfirmed_under(clients, args.id@));
        let mut releasing: Option<u64> = None;
        let mut same: Option<u64> = None;
        if let Some(record) = &found.confirmed {
            if same_client_identity(&record.principal, principal) {
                if array_equal(&record.verifier, &args.verifier) {
                    same = Some(record.client_id);
                }
            } else {
                let previous = self.clients.previous_ids(record.client_id);
                if self.state.client_has_open_or_lock_state(record.client_id, &previous) {
                    return RegisterStep::Done(SetClientIdResult::InUse(share(&record.callback)));
                }
                releasing = Some(record.client_id);
            }
        }
        assert(releasing == releasing_of(clients, *args, principal@));
        assert(same == same_incarnation(clients, *args, principal@));
        let live = self.clients.client_owners.len();
        let one: usize = if replacing.is_some() && replacing != same {
            1
        } else {
            0
        };
        let two: usize = if releasing.is_some() && releasing != same && releasing != replacing {
            1
        } else {
            0
        };
        let left: usize = if live < one + two {
            0
        } else {
            live - one - two
        };
        if same.is_none() && left >= self.limits.max_clients {
            return RegisterStep::Done(SetClientIdResult::Failed(NfsStatus::Resource));
        }
        let client_id = match same {
            Some(client_id) => client_id,
            None => match self.clients.allocate_client_id() {
                Some(client_id) => client_id,
                None => {
                    return RegisterStep::Done(SetClientIdResult::Failed(NfsStatus::Resource));
                },
            },
        };
        let counter = self.clients.next_confirmation;
        self.clients.next_confirmation = next_number(counter);
        let confirmation = confirmation_of(self.clients.boot_tag, client_id, counter, &args.verifier);
        let canonical = canonical_client_identity(principal);
        let identity = identity_key(args.id.as_slice(), &args.verifier, canonical.as_slice());
        let record = Registration {
            client_id,
            owner: share(&args.id),
            verifier: args.verifier,
            confirmation,
            principal: share(principal),
            callback: share(&args.callback),
            callback_identifier: args.callback_identifier,
            created_at: now,
            reclaimable: self.clients.recovered_clients.contains(identity.as_slice()),
        };
        RegisterStep::Register(RegisterPlan { record, releasing, replacing, stale, known: same.is_some() })
    }
}

/// The deletion of clients.
pub open spec fn stale_changes(stale: Seq<u64>) -> Seq<ChangeView> {
    Seq::new(stale.len(), |i: int| ChangeView::Delete { key: KeyView::Client { client_id: stale[i] } })
}

/// What a registration changes in the journal.
pub open spec fn register_changes(plan: RegisterPlan, revocation: Seq<ChangeView>) -> Seq<ChangeView> {
    let gone = stale_changes(plan.stale@);
    let replaced = if plan.replacing matches Some(old) && old != plan.record.client_id {
        gone.push(ChangeView::Delete { key: KeyView::Client { client_id: plan.replacing->0 } })
    } else {
        gone
    };
    let released = replaced + revocation;
    if plan.known {
        released
    } else {
        released.push(
            ChangeView::Put {
                key: KeyView::Client { client_id: plan.record.client_id },
                record: crate::clients::stable_client(plan.record, false),
            },
        )
    }
}

/// The changes are those of a registration, with the end of the client that it releases.
pub open spec fn registers(state: StateView, plan: RegisterPlan, changes: Seq<ChangeView>) -> bool {
    exists|revocation: Seq<ChangeView>|
        changes == #[trigger] register_changes(plan, revocation) && match plan.releasing {
            Some(client) => revokes(state, client, revocation),
            None => revocation.len() == 0,
        }
}

/// The clients once a registration is written.
pub open spec fn registered(clients: ClientsView, plan: RegisterPlan) -> ClientsView {
    let released = match plan.releasing {
        Some(client) => clients.unregistered(client),
        None => clients,
    };
    let name = plan.record.owner@;
    let replaced = if plan.replacing matches Some(old) && old != plan.record.client_id && plan.replacing
        != plan.releasing {
        released.client_owners.remove(plan.replacing->0)
    } else {
        released.client_owners
    };
    ClientsView {
        client_owners: replaced.insert(plan.record.client_id, plan.record.owner),
        slots: released.slots.insert(
            name,
            ClientSlot {
                confirmed: if released.slots.contains_key(name) {
                    released.slots[name].confirmed
                } else {
                    None
                },
                unconfirmed: Some(plan.record),
            },
        ),
        ..released
    }
}

impl Nfs4Runtime {
    /// What a registration changes in the journal.
    pub fn register_batch(&self, plan: &RegisterPlan) -> (batch: PersistBatch)
        ensures
            registers(self@.state, *plan, batch@),
    {
        let mut batch = PersistBatch::default();
        let ghost gone = stale_changes(plan.stale@);
        let mut i: usize = 0;
        while i < plan.stale.len()
            invariant
                i <= plan.stale@.len(),
                gone == stale_changes(plan.stale@),
                batch@ == gone.take(i as int),
            decreases plan.stale@.len() - i,
        {
            batch = batch.delete(JournalKey::Client { client_id: plan.stale[i] });
            assert(batch@ =~= gone.take(i + 1));
            i += 1;
        }
        assert(gone.take(gone.len() as int) =~= gone);
        if let Some(client) = plan.replacing {
            if client != plan.record.client_id {
                batch = batch.delete(JournalKey::Client { client_id: client });
            }
        }
        let ghost replaced = batch@;
        let ghost mut revocation: Seq<ChangeView> = seq![];
        if let Some(client) = plan.releasing {
            batch = self.state.append_client_revocation(batch, client);
            proof {
                revocation = choose|changes: Seq<ChangeView>| #[trigger]
                    revokes(self@.state, client, changes) && batch@ == replaced + changes;
            }
        }
        assert(batch@ =~= replaced + revocation);
        if !plan.known {
            batch = batch.put(
                JournalKey::Client { client_id: plan.record.client_id },
                plan.record.stable(false),
            );
        }
        assert(batch@ =~= register_changes(*plan, revocation));
        batch
    }

    /// Finishes a registration once it was written to the journal, or could not be.
    pub fn finish_register(&mut self, plan: RegisterPlan, persisted: bool) -> (result: SetClientIdResult)
        requires
            persisted && plan.releasing is Some ==> revocable(old(self)@.state, plan.releasing->0),
        ensures
            result == if persisted {
                SetClientIdResult::Registered {
                    client_id: plan.record.client_id,
                    confirmation: plan.record.confirmation,
                }
            } else {
                SetClientIdResult::Failed(NfsStatus::Resource)
            },
            final(self)@ == if !persisted {
                old(self)@
            } else {
                let released = match plan.releasing {
                    Some(client) => revoked(old(self)@, client, StateDisposition::LeaseExpired),
                    None => old(self)@,
                };
                RuntimeView { clients: registered(old(self)@.clients, plan), ..released }
            },
    {
        let ghost before = self@;
        if !persisted {
            return SetClientIdResult::Failed(NfsStatus::Resource);
        }
        if let Some(client) = plan.releasing {
            self.clients.remove_client_registration(client);
            let _ = self.revoke_client(client, StateDisposition::LeaseExpired);
        }
        if let Some(client) = plan.replacing {
            let released = match plan.releasing {
                Some(other) => other == client,
                None => false,
            };
            if client != plan.record.client_id && !released {
                let _ = self.clients.client_owners.remove(client);
            }
        }
        let client_id = plan.record.client_id;
        let confirmation = plan.record.confirmation;
        let name = share(&plan.record.owner);
        let _ = self.clients.client_owners.insert(client_id, share(&name));
        let confirmed = match self.clients.slots.get(name.as_slice()) {
            Some(slot) => slot.copy().confirmed,
            None => None,
        };
        let _ = self.clients.slots.insert(
            copy_bytes(name.as_slice()),
            ClientSlot { confirmed, unconfirmed: Some(plan.record) },
        );
        assert(self@.clients =~= registered(before.clients, plan));
        SetClientIdResult::Registered { client_id, confirmation }
    }
}

} // verus!
