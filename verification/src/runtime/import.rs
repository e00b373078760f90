//! The start of the server, and state that comes from another one.

use vstd::prelude::*;

use crate::bytemap::ByteMap;
use crate::clients::{ClientRegistry, ClientsView};
use crate::files::FileTable;
use crate::journal::{PreviousShutdown, RecoveredStableState, RecoveredView};
use crate::lease::{grace_end, GraceView, LeaseTable, LeaseView, MovedLeaseTracker, MovedView, RecoveryState};
use crate::merge::{
    all_numbers, apart, check_none_differs, check_owners_fit, claim, count_numbers, find_fresh, fit_numbers, fresh,
    identities, index_numbers, none_differs, numbers_apart, numbers_fit, owners_fit,
};
use crate::numbermap::NumberMap;
use crate::protocol::Nfs4Limits;
use crate::recovery::{
    nothing_recovered, prepare_runtime_recovery, recoverable, reply_views, PreparedRuntimeRecovery, RecoveredLock,
    RecoveredRuntimeState, RuntimeConfigError,
};
use crate::registry::{StateRegistry, StateView};
use crate::runtime::{Nfs4Runtime, RuntimeView};
use crate::stateid::{StateIdTable, TableView};

verus! {

/// How the server is set up.
#[derive(Clone, Copy, Debug)]
pub struct RuntimeConfig {
    pub lease_duration: u64,
    pub grace_duration: u64,
    pub limits: Nfs4Limits,
    pub boot_tag: u32,
    pub write_verifier: [u8; 8],
}

/// Two numbers together, as far as they can be counted.
pub open spec fn saturated(a: usize, b: usize) -> usize {
    if a + b > usize::MAX {
        usize::MAX
    } else {
        (a + b) as usize
    }
}

/// Twice a time, as far as it can be counted.
pub open spec fn doubled(duration: u64) -> u64 {
    if 2 * duration > u64::MAX {
        u64::MAX
    } else {
        (2 * duration) as u64
    }
}

/// The clients at the start.
pub open spec fn first_clients(
    config: RuntimeConfig,
    grace: bool,
    recovered: Map<Seq<u8>, Set<u64>>,
    now: u64,
) -> ClientsView {
    ClientsView {
        slots: Map::empty(),
        client_owners: Map::empty(),
        expired: Set::empty(),
        pending_expiry: Set::empty(),
        moved_leases: MovedView {
            obligations: Map::empty(),
            capacity: saturated(config.limits.max_state_objects, config.limits.max_clients),
            legacy_timeout: doubled(config.lease_duration),
        },
        leases: LeaseView { duration: config.lease_duration, renewed: Map::empty() },
        recovery: GraceView {
            grace_until: if grace {
                Some(grace_end(None, now, config.grace_duration))
            } else {
                None
            },
            reclaimable: Set::empty(),
        },
        recovered_clients: recovered,
        current_to_previous: Map::empty(),
        recovery_had_grace: grace,
        grace_cleanup_complete: !grace,
        lease_duration: config.lease_duration,
        grace_duration: config.grace_duration,
        boot_tag: config.boot_tag,
        next_client: 1,
        next_confirmation: 1,
    }
}

/// The states at the start.
pub open spec fn first_state(config: RuntimeConfig, state: StateView, recovered: RecoveredRuntimeState) -> bool {
    state == (StateView {
        open_owners: Map::empty(),
        lock_owners: Map::empty(),
        open_by_owner_file: Map::empty(),
        lock_by_state: Map::empty(),
        reclaimed_open_ancestry: Map::empty(),
        recovered_opens: recovered.opens@,
        recovered_locks: recovered.locks@,
        recovered_replays: recovered.replays@,
        recovered_cleanup_keys: recovered.cleanup_keys@,
        reserved_recovered_opens: Set::empty(),
        stateids: TableView {
            boot_tag: config.boot_tag,
            capacity: config.limits.max_state_objects,
            slots: seq![],
        },
        reserved_states: 0,
        next_reservation: 1,
        delegation_eligibility: Map::empty(),
        next_delegation_eligibility: 1,
        delegation_access: Map::empty(),
        next_delegation_access: 1,
        pending_pin_releases: seq![],
        next_pin_release_id: 1,
    })
}

/// The set-up is one with which the server can start.
pub open spec fn config_usable(config: RuntimeConfig) -> bool {
    config.limits.max_state_objects != 0 && config.boot_tag != 0 && config.boot_tag != u32::MAX
}

/// What the run before left; nothing, where there was none.
pub open spec fn left_by(recovered: Option<&RecoveredStableState>) -> RecoveredView {
    match recovered {
        Some(found) => found@,
        None => RecoveredView {
            previous_shutdown: PreviousShutdown::FirstBoot,
            previous_boot: None,
            records: seq![],
        },
    }
}

impl Nfs4Runtime {
    /// Starts the server with what the run before left. `replies` holds for each record that is a
    /// reply the operation that was read from its bytes, in the one form that the reader of replies has for it, or
    /// none where the bytes could not be read.
    pub fn new(
        config: RuntimeConfig,
        recovered: Option<&RecoveredStableState>,
        replies: &Vec<Option<Vec<u8>>>,
        now: u64,
    ) -> (started: Result<Nfs4Runtime, RuntimeConfigError>)
        ensures
            match started {
                Err(error) => if config.lease_duration == 0 {
                    error == RuntimeConfigError::Lease
                } else if !recoverable(left_by(recovered), reply_views(replies@), config.limits, config.grace_duration) {
                    error == RuntimeConfigError::Recovery
                } else {
                    error == RuntimeConfigError::StateId && !config_usable(config)
                },
                Ok(runtime) => {
                    let grace = left_by(recovered).previous_shutdown != PreviousShutdown::FirstBoot;
                    &&& config.lease_duration != 0
                    &&& recoverable(left_by(recovered), reply_views(replies@), config.limits, config.grace_duration)
                    &&& config_usable(config)
                    &&& exists|state: RecoveredRuntimeState|
                        (if grace {
                            crate::recovery::hydrates(
                                state@,
                                left_by(recovered).records,
                                reply_views(replies@),
                                config.limits,
                            )
                        } else {
                            state@ == nothing_recovered()
                        }) && #[trigger] first_state(config, runtime@.state, state) && runtime@.clients
                            == first_clients(config, grace, state@.clients, now)
                    &&& runtime@.files == Map::<Seq<u8>, crate::files::FileView>::empty()
                    &&& runtime@.limits == config.limits
                    &&& runtime@.write_verifier == config.write_verifier@
                },
            },
    {
        let leases = match LeaseTable::new(config.lease_duration) {
            Some(leases) => leases,
            None => {
                return Err(RuntimeConfigError::Lease);
            },
        };
        let first = RecoveredStableState {
            previous_shutdown: PreviousShutdown::FirstBoot,
            previous_boot: None,
            records: Vec::new(),
        };
        let found = match recovered {
            Some(found) => found,
            None => &first,
        };
        assert(found@ =~= left_by(recovered));
        let prepared = match prepare_runtime_recovery(found, replies, config.limits, config.grace_duration) {
            Ok(prepared) => prepared,
            Err(error) => {
                return Err(error);
            },
        };
        let grace = prepared.previous_shutdown != PreviousShutdown::FirstBoot;
        let mut recovery = RecoveryState::reject_reclaims();
        if grace {
            recovery.begin_grace(now, config.grace_duration);
        }
        let stateids = match StateIdTable::with_boot_tag(config.limits.max_state_objects, config.boot_tag) {
            Some(stateids) => stateids,
            None => {
                return Err(RuntimeConfigError::StateId);
            },
        };
        let capacity: usize = if config.limits.max_state_objects > usize::MAX - config.limits.max_clients {
            usize::MAX
        } else {
            config.limits.max_state_objects + config.limits.max_clients
        };
        let ghost state = prepared.state;
        let clients = ClientRegistry {
            slots: ByteMap::new(),
            client_owners: NumberMap::new(),
            expired: NumberMap::new(),
            pending_expiry: NumberMap::new(),
            moved_leases: MovedLeaseTracker::new(capacity, config.lease_duration),
            leases,
            recovery,
            recovered_clients: prepared.state.clients,
            current_to_previous: NumberMap::new(),
            recovery_had_grace: grace,
            grace_cleanup_complete: !grace,
            lease_duration: config.lease_duration,
            grace_duration: config.grace_duration,
            boot_tag: config.boot_tag,
            next_client: 1,
            next_confirmation: 1,
        };
        let registry = StateRegistry {
            open_owners: ByteMap::new(),
            lock_owners: ByteMap::new(),
            open_by_owner_file: ByteMap::new(),
            lock_by_state: ByteMap::new(),
            reclaimed_open_ancestry: ByteMap::new(),
            recovered_opens: prepared.state.opens,
            recovered_locks: prepared.state.locks,
            recovered_replays: prepared.state.replays,
            recovered_cleanup_keys: prepared.state.cleanup_keys,
            reserved_recovered_opens: ByteMap::new(),
            stateids,
            reserved_states: 0,
            next_reservation: 1,
            delegation_eligibility: NumberMap::new(),
            next_delegation_eligibility: 1,
            delegation_access: NumberMap::new(),
            next_delegation_access: 1,
            pending_pin_releases: Vec::new(),
            next_pin_release_id: 1,
        };
        let runtime = Nfs4Runtime {
            clients,
            state: registry,
            files: FileTable::new(),
            limits: config.limits,
            write_verifier: config.write_verifier,
        };
        proof {
            assert(runtime@.clients =~= first_clients(config, grace, state@.clients, now));
            assert(runtime@.state =~= (StateView {
                open_owners: Map::empty(),
                lock_owners: Map::empty(),
                open_by_owner_file: Map::empty(),
                lock_by_state: Map::empty(),
                reclaimed_open_ancestry: Map::empty(),
                recovered_opens: state.opens@,
                recovered_locks: state.locks@,
                recovered_replays: state.replays@,
                recovered_cleanup_keys: state.cleanup_keys@,
                reserved_recovered_opens: Set::empty(),
                stateids: TableView {
                    boot_tag: config.boot_tag,
                    capacity: config.limits.max_state_objects,
                    slots: seq![],
                },
                reserved_states: 0,
                next_reservation: 1,
                delegation_eligibility: Map::empty(),
                next_delegation_eligibility: 1,
                delegation_access: Map::empty(),
                next_delegation_access: 1,
                pending_pin_releases: seq![],
                next_pin_release_id: 1,
            }));
            assert(first_state(config, runtime@.state, state));
        }
        Ok(runtime)
    }

    /// The verifier of writes of this run.
    pub fn write_verifier(&self) -> (verifier: [u8; 8])
        ensures
            verifier@ == self@.write_verifier,
    {
        self.write_verifier
    }

    /// How long a lease lasts.
    pub fn lease_duration(&self) -> (duration: u64)
        ensures
            duration == self@.clients.lease_duration,
    {
        self.clients.lease_duration
    }

    /// How long clients can reclaim after a restart.
    pub fn grace_duration(&self) -> (duration: u64)
        ensures
            duration == self@.clients.grace_duration,
    {
        self.clients.grace_duration
    }

    /// Checks state of another server, before it is taken over. `replies` holds for each record that is a reply the
    /// operation that was read from its bytes, or none where they could not be read.
    pub fn prepare_recovery_import(
        &self,
        recovered: &RecoveredStableState,
        replies: &Vec<Option<Vec<u8>>>,
        minimum_grace_duration: u64,
    ) -> (prepared: Result<PreparedRuntimeRecovery, RuntimeConfigError>)
        ensures
            match prepared {
                Ok(p) => {
                    &&& recoverable(recovered@, reply_views(replies@), self@.limits, minimum_grace_duration)
                    &&& p.previous_shutdown == recovered@.previous_shutdown
                    &&& p.minimum_grace_duration == minimum_grace_duration
                    &&& numbers_apart(p.state@.clients)
                    &&& if recovered@.previous_shutdown == PreviousShutdown::FirstBoot {
                        p.state@ == nothing_recovered()
                    } else {
                        crate::recovery::hydrates(
                            p.state@,
                            recovered@.records,
                            reply_views(replies@),
                            self@.limits,
                        )
                    }
                },
                Err(e) => e == RuntimeConfigError::Recovery && !recoverable(
                    recovered@,
                    reply_views(replies@),
                    self@.limits,
                    minimum_grace_duration,
                ),
            },
    {
        prepare_runtime_recovery(recovered, replies, self.limits, minimum_grace_duration)
    }
}

/// No two states, of this server or of the other one, have the same identity; a state that is here already is counted
/// once.
pub open spec fn identities_apart(state: StateView, imported: RecoveredRuntimeState) -> bool {
    let opens = fresh(state.recovered_opens, imported.opens@);
    let locks = fresh(state.recovered_locks, imported.locks@);
    let one = identities(state.open_by_owner_file);
    let two = one + identities(state.lock_by_state);
    let three = two + identities(state.recovered_opens);
    let four = three + identities(state.recovered_locks);
    let five = four + identities(opens);
    &&& apart(state.open_by_owner_file)
    &&& apart(state.lock_by_state) && one.disjoint(identities(state.lock_by_state))
    &&& apart(state.recovered_opens) && two.disjoint(identities(state.recovered_opens))
    &&& apart(state.recovered_locks) && three.disjoint(identities(state.recovered_locks))
    &&& apart(opens) && four.disjoint(identities(opens))
    &&& apart(locks) && five.disjoint(identities(locks))
}

/// How many states there would be.
pub open spec fn projected_states(state: StateView, imported: RecoveredRuntimeState) -> int {
    state.stateids.count() + state.reserved_states + state.recovered_opens.dom().len()
        + state.recovered_locks.dom().len() + fresh(state.recovered_opens, imported.opens@).dom().len() + fresh(
        state.recovered_locks,
        imported.locks@,
    ).dom().len()
}

/// No lock has more ranges than it may.
pub open spec fn ranges_fit(locks: Map<Seq<u8>, RecoveredLock>, maximum: usize) -> bool {
    forall|token: Seq<u8>| #[trigger] locks.contains_key(token) ==> locks[token].ranges@.len() <= maximum
}

/// State of another server can be taken over.
pub open spec fn importable(view: RuntimeView, prepared: PreparedRuntimeRecovery) -> bool {
    let imported = prepared.state;
    let clients = view.clients;
    let state = view.state;
    &&& prepared.previous_shutdown != PreviousShutdown::FirstBoot
    &&& numbers_apart(clients.recovered_clients)
    &&& numbers_fit(clients.recovered_clients, imported@.clients, clients.client_owners.dom())
    &&& identities_apart(state, imported)
    &&& none_differs(state.recovered_replays, imported.replays@)
    &&& state.reserved_states == 0
    &&& all_numbers(clients.recovered_clients, imported@.clients).len() <= view.limits.max_clients
    &&& projected_states(state, imported) <= view.limits.max_state_objects
    &&& owners_fit(state.recovered_opens, imported.opens@, view.limits.max_open_owners_per_client)
    &&& owners_fit(state.recovered_locks, imported.locks@, view.limits.max_lock_owners_per_client)
    &&& ranges_fit(state.recovered_locks, view.limits.max_lock_ranges_per_state)
    &&& ranges_fit(imported.locks@, view.limits.max_lock_ranges_per_state)
}

/// Whether no lock has more ranges than it may.
fn check_ranges_fit(locks: &ByteMap<RecoveredLock>, maximum: usize) -> (fit: bool)
    ensures
        fit == ranges_fit(locks@, maximum),
{
    locks.order_known();
    let ghost keys = locks.keys();
    let total = locks.len();
    let mut i: usize = 0;
    while i < total
        invariant
            i <= total,
            total == keys.len(),
            keys == locks.keys(),
            keys.len() == locks.values().len(),
            forall|j: int| 0 <= j < keys.len() ==> locks@.contains_key(#[trigger] keys[j]),
            forall|j: int| 0 <= j < keys.len() ==> locks@[#[trigger] keys[j]] == locks.values()[j],
            forall|j: int| 0 <= j < i ==> locks@[#[trigger] keys[j]].ranges@.len() <= maximum,
        decreases total - i,
    {
        let lock = locks.value_at(i);
        assert(locks@[keys[i as int]] == *lock);
        if lock.ranges.len() > maximum {
            assert(locks@.contains_key(keys[i as int]));
            return false;
        }
        i += 1;
    }
    proof {
        assert forall|token: Seq<u8>| #[trigger] locks@.contains_key(token) implies locks@[token].ranges@.len()
            <= maximum by {
            assert(keys.contains(token));
        }
    }
    true
}

/// Adds up to a limit; `None` where it is passed.
fn add_within(a: usize, b: usize, maximum: usize) -> (sum: Option<usize>)
    ensures
        match sum {
            Some(sum) => sum == a + b && sum <= maximum,
            None => a + b > maximum,
        },
{
    if a > maximum || b > maximum - a {
        None
    } else {
        Some(a + b)
    }
}

impl StateRegistry {
    /// Whether no two states have the same identity.
    fn check_identities(&self, imported: &RecoveredRuntimeState) -> (apart: bool)
        ensures
            apart == identities_apart(self@, *imported),
    {
        let opens = find_fresh(&self.recovered_opens, &imported.opens);
        let locks = find_fresh(&self.recovered_locks, &imported.locks);
        let mut claimed: ByteMap<()> = ByteMap::new();
        proof {
            assert(claimed@.dom() =~= Set::empty());
        }
        if !claim(&mut claimed, &self.open_by_owner_file) {
            return false;
        }
        assert(claimed@.dom() =~= identities(self@.open_by_owner_file));
        if !claim(&mut claimed, &self.lock_by_state) {
            return false;
        }
        if !claim(&mut claimed, &self.recovered_opens) {
            return false;
        }
        if !claim(&mut claimed, &self.recovered_locks) {
            return false;
        }
        if !claim(&mut claimed, &opens) {
            return false;
        }
        claim(&mut claimed, &locks)
    }

    /// Whether there would not be too many states.
    fn check_projected(&self, imported: &RecoveredRuntimeState, maximum: usize) -> (fit: bool)
        ensures
            fit == (projected_states(self@, *imported) <= maximum),
    {
        let opens = find_fresh(&self.recovered_opens, &imported.opens);
        let locks = find_fresh(&self.recovered_locks, &imported.locks);
        let sum = match add_within(self.stateids.len(), self.reserved_states, maximum) {
            Some(sum) => sum,
            None => {
                return false;
            },
        };
        let sum = match add_within(sum, self.recovered_opens.len(), maximum) {
            Some(sum) => sum,
            None => {
                return false;
            },
        };
        let sum = match add_within(sum, self.recovered_locks.len(), maximum) {
            Some(sum) => sum,
            None => {
                return false;
            },
        };
        let sum = match add_within(sum, opens.len(), maximum) {
            Some(sum) => sum,
            None => {
                return false;
            },
        };
        add_within(sum, locks.len(), maximum).is_some()
    }
}

impl Nfs4Runtime {
    /// Checks that state of another server can be taken over.
    pub fn validate_recovery_import(&self, prepared: &PreparedRuntimeRecovery) -> (valid: Result<(), RuntimeConfigError>)
        ensures
            valid == if importable(self@, *prepared) {
                Ok::<(), RuntimeConfigError>(())
            } else {
                Err::<(), RuntimeConfigError>(RuntimeConfigError::Recovery)
            },
    {
        let imported = &prepared.state;
        if prepared.previous_shutdown == PreviousShutdown::FirstBoot {
            return Err(RuntimeConfigError::Recovery);
        }
        let index = match index_numbers(&self.clients.recovered_clients) {
            Some(index) => index,
            None => {
                return Err(RuntimeConfigError::Recovery);
            },
        };
        if !fit_numbers(
            &index,
            &imported.clients,
            &self.clients.client_owners,
            Ghost(self@.clients.recovered_clients),
        ) {
            return Err(RuntimeConfigError::Recovery);
        }
        if !self.state.check_identities(imported) {
            return Err(RuntimeConfigError::Recovery);
        }
        if !check_none_differs(&self.state.recovered_replays, &imported.replays) || self.state.reserved_states != 0 {
            return Err(RuntimeConfigError::Recovery);
        }
        let numbers = count_numbers(index, &imported.clients, Ghost(self@.clients.recovered_clients));
        if numbers > self.limits.max_clients || !self.state.check_projected(imported, self.limits.max_state_objects) {
            return Err(RuntimeConfigError::Recovery);
        }
        if !check_owners_fit(&self.state.recovered_opens, &imported.opens, self.limits.max_open_owners_per_client)
            || !check_owners_fit(
            &self.state.recovered_locks,
            &imported.locks,
            self.limits.max_lock_owners_per_client,
        ) {
            return Err(RuntimeConfigError::Recovery);
        }
        if !check_ranges_fit(&self.state.recovered_locks, self.limits.max_lock_ranges_per_state) || !check_ranges_fit(
            &imported.locks,
            self.limits.max_lock_ranges_per_state,
        ) {
            return Err(RuntimeConfigError::Recovery);
        }
        Ok(())
    }
}

} // verus!
