//! The state that clients hold: who they are, what they have open and what they have locked.
//!
//! The runtime decides; it does no I/O. An operation that has to be in the journal before it is answered takes three
//! steps: it is prepared, which gives the reply and the batch for the journal; the batch is written by the caller;
//! and it is finished with the outcome. Times are ticks of the caller's clock.

use std::sync::Arc;

use vstd::prelude::*;

use crate::clients::{ClientRegistry, ClientsView};
use crate::files::{FileTable, FileView};
use crate::numbermap::NumberMap;
use crate::journal::{ChangeView, PersistBatch};
use crate::protocol::{
    delegation_kinds_conflict, kinds_conflict, share, DelegationKind, LockResult, Nfs4Limits, NfsStatus, ReplayEffect,
    ResOp, RuntimeFile,
};
use crate::registry::{
    replay_key_of, replay_record_of, OwnerReservation, PendingDelegationAccess, PendingDelegationEligibility,
    ReservedOwnerKind, StateRegistry, StateView,
};

pub mod activate;
pub mod aftermath;
pub mod agreement;
pub mod arrival;
pub mod capacity;
pub mod close;
pub mod complete;
pub mod confirm;
pub mod ending;
pub mod exclusion;
pub mod expiry;
pub mod import;
pub mod io;
pub mod laws;
pub mod lock;
pub mod open;
pub mod openstate;
pub mod order;
pub mod outcome;
pub mod permission;
pub mod preflight;
pub mod ready;
pub mod register;
pub mod release;
pub mod restart;
pub mod revoke;
pub mod sharing;
pub mod standing;
pub mod told;
pub mod turns;
pub mod unlock;
pub mod written;

verus! {

/// The state of all clients.
pub struct Nfs4Runtime {
    pub clients: ClientRegistry,
    pub state: StateRegistry,
    pub files: FileTable,
    pub limits: Nfs4Limits,
    pub write_verifier: [u8; 8],
}

/// What the state of all clients stands for.
#[verifier::ext_equal]
pub struct RuntimeView {
    pub clients: ClientsView,
    pub state: StateView,
    pub files: Map<Seq<u8>, FileView>,
    pub limits: Nfs4Limits,
    pub write_verifier: Seq<u8>,
}

impl View for Nfs4Runtime {
    type V = RuntimeView;

    open spec fn view(&self) -> RuntimeView {
        RuntimeView {
            clients: self.clients@,
            state: self.state@,
            files: self.files@,
            limits: self.limits,
            write_verifier: self.write_verifier@,
        }
    }
}

/// The number after another one; zero is left out.
pub open spec fn number_after(number: u64) -> u64 {
    if number == u64::MAX {
        1
    } else {
        (number + 1) as u64
    }
}

/// The number after another one; zero is left out.
pub fn next_number(number: u64) -> (next: u64)
    ensures
        next == number_after(number),
{
    if number == u64::MAX {
        1
    } else {
        number + 1
    }
}

/// The first of so many numbers that is not taken, and the number to go on with.
pub open spec fn free_number(taken: Set<u64>, next: u64, tries: nat) -> (Option<u64>, u64)
    decreases tries,
{
    if tries == 0 {
        (None, next)
    } else if !taken.contains(next) {
        (Some(next), number_after(next))
    } else {
        free_number(taken, number_after(next), (tries - 1) as nat)
    }
}

/// Looks for a number that is not taken, among one more than `maximum`.
pub fn find_free<T>(taken: &NumberMap<T>, next: u64, maximum: usize) -> (found: (Option<u64>, u64))
    ensures
        found == free_number(taken@.dom(), next, (maximum + 1) as nat),
{
    let mut candidate: u64 = next;
    let mut left: usize = maximum;
    loop
        invariant
            free_number(taken@.dom(), next, (maximum + 1) as nat) == free_number(
                taken@.dom(),
                candidate,
                (left + 1) as nat,
            ),
        decreases left,
    {
        if !taken.contains(candidate) {
            return (Some(candidate), next_number(candidate));
        }
        if left == 0 {
            let after = next_number(candidate);
            assert(free_number(taken@.dom(), after, 0) == (None::<u64>, after));
            return (None, after);
        }
        candidate = next_number(candidate);
        left -= 1;
    }
}

/// A delegation that may be granted stands against the access.
pub open spec fn grant_against(
    candidate: PendingDelegationEligibility,
    file: RuntimeFile,
    client: Option<u64>,
    access: DelegationKind,
    truncate: bool,
) -> bool {
    candidate.file == file && client != Some(candidate.client_id) && (truncate || kinds_conflict(candidate.kind, access))
}

impl StateView {
    /// Some delegation that may be granted stands against the access.
    pub open spec fn access_blocked(
        self,
        file: RuntimeFile,
        client: Option<u64>,
        access: DelegationKind,
        truncate: bool,
    ) -> bool {
        exists|id: u64| #[trigger]
            self.delegation_eligibility.contains_key(id) && grant_against(
                self.delegation_eligibility[id],
                file,
                client,
                access,
                truncate,
            )
    }

    /// The number under which an access goes on, where it may.
    pub open spec fn access_number(
        self,
        file: RuntimeFile,
        client: Option<u64>,
        access: DelegationKind,
        truncate: bool,
        limits: Nfs4Limits,
    ) -> Result<u64, NfsStatus> {
        if self.access_blocked(file, client, access, truncate) {
            Err(NfsStatus::Delay)
        } else if self.delegation_access.dom().len() >= limits.max_state_objects {
            Err(NfsStatus::Resource)
        } else {
            match free_number(
                self.delegation_access.dom(),
                self.next_delegation_access,
                (limits.max_state_objects + 1) as nat,
            ).0 {
                Some(id) => Ok(id),
                None => Err(NfsStatus::Resource),
            }
        }
    }

    /// The registry once an access was asked for.
    pub open spec fn access_begun(
        self,
        file: RuntimeFile,
        client: Option<u64>,
        access: DelegationKind,
        truncate: bool,
        limits: Nfs4Limits,
    ) -> StateView {
        if self.access_blocked(file, client, access, truncate) || self.delegation_access.dom().len()
            >= limits.max_state_objects {
            self
        } else {
            let found = free_number(
                self.delegation_access.dom(),
                self.next_delegation_access,
                (limits.max_state_objects + 1) as nat,
            );
            StateView {
                delegation_access: match found.0 {
                    Some(id) => self.delegation_access.insert(
                        id,
                        PendingDelegationAccess { file, client_id: client, access, truncate },
                    ),
                    None => self.delegation_access,
                },
                next_delegation_access: found.1,
                ..self
            }
        }
    }

    /// The registry once an access is over.
    pub open spec fn access_ended(self, id: Option<u64>) -> StateView {
        match id {
            Some(id) => StateView { delegation_access: self.delegation_access.remove(id), ..self },
            None => self,
        }
    }
}

impl StateRegistry {
    /// Takes the right to access a file, against which no delegation may be granted while it lasts.
    pub fn begin_delegation_access(
        &mut self,
        file: RuntimeFile,
        client: Option<u64>,
        access: DelegationKind,
        truncate: bool,
        limits: Nfs4Limits,
    ) -> (begun: Result<u64, NfsStatus>)
        ensures
            begun == old(self)@.access_number(file, client, access, truncate, limits),
            final(self)@ == old(self)@.access_begun(file, client, access, truncate, limits),
    {
        let ghost before = self@;
        self.delegation_eligibility.order_known();
        let total = self.delegation_eligibility.len();
        let mut i: usize = 0;
        while i < total
            invariant
                i <= total,
                total == self.delegation_eligibility.keys().len(),
                self@ == before,
                self.delegation_eligibility.keys().len() == self.delegation_eligibility.values().len(),
                forall|j: int|
                    0 <= j < self.delegation_eligibility.keys().len() ==> self.delegation_eligibility@.contains_key(
                        #[trigger] self.delegation_eligibility.keys()[j],
                    ),
                forall|j: int|
                    0 <= j < self.delegation_eligibility.keys().len()
                        ==> self.delegation_eligibility@[#[trigger] self.delegation_eligibility.keys()[j]]
                        == self.delegation_eligibility.values()[j],
                forall|j: int|
                    0 <= j < i ==> !grant_against(
                        self.delegation_eligibility@[#[trigger] self.delegation_eligibility.keys()[j]],
                        file,
                        client,
                        access,
                        truncate,
                    ),
                before == old(self)@,
            decreases total - i,
        {
            let candidate = *self.delegation_eligibility.value_at(i);
            let same = match client {
                Some(id) => id == candidate.client_id,
                None => false,
            };
            if candidate.file == file && !same && (truncate || delegation_kinds_conflict(candidate.kind, access)) {
                proof {
                    let id = self.delegation_eligibility.keys()[i as int];
                    assert(before.delegation_eligibility.contains_key(id));
                }
                return Err(NfsStatus::Delay);
            }
            assert(self.delegation_eligibility@[self.delegation_eligibility.keys()[i as int]] == candidate);
            i += 1;
        }
        proof {
            if before.access_blocked(file, client, access, truncate) {
                let id = choose|id: u64| #[trigger]
                    before.delegation_eligibility.contains_key(id) && grant_against(
                        before.delegation_eligibility[id],
                        file,
                        client,
                        access,
                        truncate,
                    );
                assert(self.delegation_eligibility.keys().contains(id));
            }
        }
        if self.delegation_access.len() >= limits.max_state_objects {
            return Err(NfsStatus::Resource);
        }
        let (found, next) = find_free(&self.delegation_access, self.next_delegation_access, limits.max_state_objects);
        self.next_delegation_access = next;
        match found {
            Some(id) => {
                let _ = self.delegation_access.insert(
                    id,
                    PendingDelegationAccess { file, client_id: client, access, truncate },
                );
                Ok(id)
            },
            None => Err(NfsStatus::Resource),
        }
    }

    /// Whether an access of that kind goes on under a number.
    pub fn delegation_access_matches(
        &self,
        id: u64,
        file: RuntimeFile,
        client: Option<u64>,
        access: DelegationKind,
        truncate: bool,
    ) -> (matching: bool)
        ensures
            matching == access_matches(self@, id, file, client, access, truncate),
    {
        match self.delegation_access.get(id) {
            Some(pending) => pending.file == file && pending.client_id == client && pending.access == access
                && pending.truncate == truncate,
            None => false,
        }
    }

    /// Ends an access.
    pub fn end_delegation_access(&mut self, id: Option<u64>)
        ensures
            final(self)@ == old(self)@.access_ended(id),
    {
        if let Some(id) = id {
            let _ = self.delegation_access.remove(id);
        }
    }
}

/// An access of that kind goes on under a number.
pub open spec fn access_matches(
    state: StateView,
    id: u64,
    file: RuntimeFile,
    client: Option<u64>,
    access: DelegationKind,
    truncate: bool,
) -> bool {
    state.delegation_access.contains_key(id) && state.delegation_access[id] == (PendingDelegationAccess {
        file,
        client_id: client,
        access,
        truncate,
    })
}

/// A refusal that an owner is to keep.
pub struct OwnerErrorPlan {
    pub reservation: OwnerReservation,
    pub response: Arc<ResOp>,
    pub effect: ReplayEffect,
}

/// The answer where a refusal could not be kept.
pub open spec fn owner_error(kind: ReservedOwnerKind, status: NfsStatus) -> ResOp {
    match kind {
        ReservedOwnerKind::Open => ResOp::Open(Err(status)),
        ReservedOwnerKind::Lock => ResOp::Lock(LockResult::Failed(status)),
    }
}

/// The answer where a refusal could not be kept.
pub fn owner_error_result(kind: ReservedOwnerKind, status: NfsStatus) -> (result: Arc<ResOp>)
    ensures
        *result == owner_error(kind, status),
{
    match kind {
        ReservedOwnerKind::Open => Arc::new(ResOp::Open(Err(status))),
        ReservedOwnerKind::Lock => Arc::new(ResOp::Lock(LockResult::Failed(status))),
    }
}

impl OwnerErrorPlan {
    /// What the refusal changes in the journal, with the encoded reply.
    pub fn batch(&self, reply: &Vec<u8>) -> (batch: PersistBatch)
        ensures
            batch@ == seq![
                ChangeView::Put {
                    key: replay_key_of(self.reservation),
                    record: replay_record_of(self.reservation, self.effect, reply@),
                },
            ],
    {
        let batch = PersistBatch::default().put(
            self.reservation.replay_key(),
            self.reservation.replay_record(self.effect, reply),
        );
        assert(batch@ =~= seq![
            ChangeView::Put {
                key: replay_key_of(self.reservation),
                record: replay_record_of(self.reservation, self.effect, reply@),
            },
        ]);
        batch
    }
}

/// The answer to a refusal that an owner is to keep.
pub open spec fn owner_error_told(state: StateView, plan: OwnerErrorPlan, recorded: bool) -> ResOp {
    if !recorded {
        owner_error(plan.reservation.kind, NfsStatus::Resource)
    } else if !state.awaits(plan.reservation) {
        owner_error(plan.reservation.kind, NfsStatus::ServerFault)
    } else {
        *plan.response
    }
}

/// The registry once a refusal is kept, or could not be.
pub open spec fn owner_error_kept(state: StateView, plan: OwnerErrorPlan, recorded: bool) -> StateView {
    if recorded {
        state.settled(plan.reservation, plan.response, plan.effect)
    } else {
        state.dropped(plan.reservation)
    }
}

impl Nfs4Runtime {
    /// Finishes a refusal that an owner is to keep, once it was written to the journal, or could not be.
    pub fn finish_owner_error(&mut self, plan: OwnerErrorPlan, recorded: bool) -> (result: Arc<ResOp>)
        ensures
            *result == owner_error_told(old(self)@.state, plan, recorded),
            final(self)@ == (RuntimeView { state: owner_error_kept(old(self)@.state, plan, recorded), ..old(self)@ }),
    {
        let kind = plan.reservation.kind;
        if !recorded {
            self.state.drop_reservation(plan.reservation);
            return owner_error_result(kind, NfsStatus::Resource);
        }
        if self.state.settle_reservation(plan.reservation, share(&plan.response), plan.effect) {
            plan.response
        } else {
            owner_error_result(kind, NfsStatus::ServerFault)
        }
    }
}

} // verus!
