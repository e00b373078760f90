//! What becomes of state that arrives from another server: it is added to what is there, and nothing that is there changes.

use vstd::prelude::*;

use crate::identity::canonical_identity;
use crate::merge::{files_number, fresh, identities, Identified, Recovered};
use crate::recovery::{identity_place, PreparedRuntimeRecovery};
use crate::runtime::activate::{activated, already_active, is_linked, links};
use crate::runtime::expiry::cleanup_due;
use crate::runtime::import::importable;
use crate::runtime::RuntimeView;

verus! {

/// Opens, locks and last replies that arrive are there, as they were at the other server, beside those that were there
/// before, which stay; and there are no others. What clients of this server have is untouched.
pub proof fn lemma_arrival_adds(
    before: RuntimeView,
    after: RuntimeView,
    prepared: PreparedRuntimeRecovery,
    now: u64,
    token: Seq<u8>,
)
    requires
        importable(before, prepared),
        activated(before, after, prepared, now),
        token.len() == 16,
    ensures
        after.state.recovered_opens.contains_key(token) <==> before.state.recovered_opens.contains_key(token)
            || prepared.state.opens@.contains_key(token),
        before.state.recovered_opens.contains_key(token) ==> after.state.recovered_opens[token]
            == before.state.recovered_opens[token],
        prepared.state.opens@.contains_key(token) ==> after.state.recovered_opens[token]@
            == prepared.state.opens@[token]@,
        after.state.recovered_locks.contains_key(token) <==> before.state.recovered_locks.contains_key(token)
            || prepared.state.locks@.contains_key(token),
        before.state.recovered_locks.contains_key(token) ==> after.state.recovered_locks[token]
            == before.state.recovered_locks[token],
        prepared.state.locks@.contains_key(token) ==> after.state.recovered_locks[token]@
            == prepared.state.locks@[token]@,
        after.state.recovered_replays.contains_key(token) <==> before.state.recovered_replays.contains_key(token)
            || prepared.state.replays@.contains_key(token),
        before.state.recovered_replays.contains_key(token) ==> after.state.recovered_replays[token]
            == before.state.recovered_replays[token],
        prepared.state.replays@.contains_key(token) ==> after.state.recovered_replays[token]@
            == prepared.state.replays@[token]@,
        after.files == before.files,
        after.state.stateids == before.state.stateids,
        after.state.open_owners == before.state.open_owners,
        after.state.lock_owners == before.state.lock_owners,
        after.state.open_by_owner_file == before.state.open_by_owner_file,
        after.state.lock_by_state == before.state.lock_by_state,
        after.clients.slots == before.clients.slots,
        after.clients.leases == before.clients.leases,
        prepared.state.cleanup_keys@.subset_of(after.state.recovered_cleanup_keys),
        before.state.recovered_cleanup_keys.subset_of(after.state.recovered_cleanup_keys),
{
    let opens = fresh(before.state.recovered_opens, prepared.state.opens@);
    let locks = fresh(before.state.recovered_locks, prepared.state.locks@);
    if prepared.state.opens@.contains_key(token) && before.state.recovered_opens.contains_key(token) {
        let there = before.state.recovered_opens;
        assert(there.contains_key(token));
        assert(identities(there).contains(there[token].identity(token)));
        if opens.contains_key(token) {
            assert(identities(opens).contains(opens[token].identity(token)));
        }
    }
    if prepared.state.locks@.contains_key(token) && before.state.recovered_locks.contains_key(token) {
        let there = before.state.recovered_locks;
        assert(there.contains_key(token));
        assert(identities(there).contains(there[token].identity(token)));
        if locks.contains_key(token) {
            assert(identities(locks).contains(locks[token].identity(token)));
        }
    }
    if prepared.state.replays@.contains_key(token) && before.state.recovered_replays.contains_key(token) {
        assert(before.state.recovered_replays[token].alike(&prepared.state.replays@[token]));
    }
    if already_active(before, prepared) {
        if prepared.state.replays@.contains_key(token) {
            assert(before.state.recovered_replays.contains_key(token));
        }
        if prepared.state.opens@.contains_key(token) {
            assert(before.state.recovered_opens.contains_key(token));
        }
        if prepared.state.locks@.contains_key(token) {
            assert(before.state.recovered_locks.contains_key(token));
        }
    }
}

/// State that arrives is refused where it has the identity of an open or of locks that a client of this server has, or of
/// others that arrived before.
pub proof fn lemma_arrival_apart(view: RuntimeView, prepared: PreparedRuntimeRecovery, token: Seq<u8>, place: Seq<u8>)
    requires
        importable(view, prepared),
        token.len() == 16,
        prepared.state.opens@.contains_key(token) && !view.state.recovered_opens.contains_key(token)
            || prepared.state.locks@.contains_key(token) && !view.state.recovered_locks.contains_key(token),
    ensures
        view.state.open_by_owner_file.contains_key(place) ==> view.state.open_by_owner_file[place].state_id.other@
            != token.skip(4),
        view.state.lock_by_state.contains_key(place) ==> view.state.lock_by_state[place].state_id.other@ != token.skip(4),
        place.len() == 16 && view.state.recovered_opens.contains_key(place) ==> place.skip(4) != token.skip(4),
        place.len() == 16 && view.state.recovered_locks.contains_key(place) ==> place.skip(4) != token.skip(4),
        prepared.state.opens@.contains_key(token) ==> !prepared.state.locks@.contains_key(token),
{
    let opens = fresh(view.state.recovered_opens, prepared.state.opens@);
    let locks = fresh(view.state.recovered_locks, prepared.state.locks@);
    let identity = token.skip(4);
    if opens.contains_key(token) {
        assert(opens[token].identity(token) == identity);
        assert(identities(opens).contains(identity));
    }
    if locks.contains_key(token) {
        assert(locks[token].identity(token) == identity);
        assert(identities(locks).contains(identity));
    }
    if view.state.open_by_owner_file.contains_key(place) {
        let links = view.state.open_by_owner_file;
        assert(identities(links).contains(links[place].identity(place)));
    }
    if view.state.lock_by_state.contains_key(place) {
        let links = view.state.lock_by_state;
        assert(identities(links).contains(links[place].identity(place)));
    }
    if place.len() == 16 && view.state.recovered_opens.contains_key(place) {
        let there = view.state.recovered_opens;
        assert(there[place].identity(place) == place.skip(4));
        assert(identities(there).contains(there[place].identity(place)));
    }
    if place.len() == 16 && view.state.recovered_locks.contains_key(place) {
        let there = view.state.recovered_locks;
        assert(there[place].identity(place) == place.skip(4));
        assert(identities(there).contains(there[place].identity(place)));
    }
    if prepared.state.opens@.contains_key(token) && prepared.state.locks@.contains_key(token) {
        if view.state.recovered_opens.contains_key(token) {
            let there = view.state.recovered_opens;
            assert(there[token].identity(token) == identity);
            assert(identities(there).contains(identity));
        }
        if view.state.recovered_locks.contains_key(token) {
            let there = view.state.recovered_locks;
            assert(there[token].identity(token) == identity);
            assert(identities(there).contains(identity));
        }
    }
}

/// A client of another server arrives under a number that no client of this server has, and that nobody else had; where
/// there was no run before there is nothing to arrive.
pub proof fn lemma_arrival_numbers(view: RuntimeView, prepared: PreparedRuntimeRecovery, place: Seq<u8>, number: u64)
    requires
        importable(view, prepared),
        prepared.state@.clients.contains_key(place),
        prepared.state@.clients[place].contains(number),
    ensures
        !view.clients.client_owners.contains_key(number),
        forall|other: Seq<u8>| #[trigger]
            view.clients.recovered_clients.contains_key(other) && view.clients.recovered_clients[other].contains(number)
                ==> other == place,
{
    assert(files_number(prepared.state@.clients, place, number));
    assert forall|other: Seq<u8>| #[trigger]
        view.clients.recovered_clients.contains_key(other) && view.clients.recovered_clients[other].contains(
            number,
        ) implies other == place by {
        assert(files_number(view.clients.recovered_clients, other, number));
    }
}

/// When state arrives clients have time to reclaim it: as long as this server gives them, and as long as the other one asks
/// for, from now on. Time that they were given already is not taken back, and once the time is over what was not reclaimed is cleaned up.
pub proof fn lemma_arrival_grace(
    before: RuntimeView,
    after: RuntimeView,
    prepared: PreparedRuntimeRecovery,
    now: u64,
    later: u64,
)
    requires
        importable(before, prepared),
        !already_active(before, prepared),
        activated(before, after, prepared, now),
        now <= later,
        later < u64::MAX,
    ensures
        later < now + before.clients.grace_duration ==> after.clients.recovery.in_grace(later),
        later < now + prepared.minimum_grace_duration ==> after.clients.recovery.in_grace(later),
        before.clients.recovery.in_grace(later) ==> after.clients.recovery.in_grace(later),
        after.clients.recovery.in_grace(later) ==> later < now + before.clients.grace_duration || later < now
            + prepared.minimum_grace_duration || before.clients.recovery.in_grace(later),
        !after.clients.recovery.in_grace(later) ==> cleanup_due(after.clients, later),
{
}

/// A client that is confirmed already reclaims what arrives for it: it is linked with every number that a client with its
/// name, its verifier and its sender had at the other server, and may reclaim.
pub proof fn lemma_arrival_linked(
    before: RuntimeView,
    after: RuntimeView,
    prepared: PreparedRuntimeRecovery,
    now: u64,
    name: Seq<u8>,
    number: u64,
)
    requires
        importable(before, prepared),
        !already_active(before, prepared),
        activated(before, after, prepared, now),
        before.clients.slots.contains_key(name),
        before.clients.slots[name].confirmed is Some,
        ({
            let record = before.clients.slots[name].confirmed->0;
            let place = identity_place(record.owner@, record.verifier@, canonical_identity(record.principal@));
            &&& prepared.state@.clients.contains_key(place)
            &&& prepared.state@.clients[place].contains(number)
        }),
        forall|other: Seq<u8>| #[trigger]
            before.clients.slots.contains_key(other) && before.clients.slots[other].confirmed is Some
                && before.clients.slots[other].confirmed->0.client_id == before.clients.slots[name].confirmed->0.client_id
                ==> other == name,
    ensures
        ({
            let client = before.clients.slots[name].confirmed->0.client_id;
            &&& after.clients.current_to_previous.contains_key(client)
            &&& after.clients.current_to_previous[client].contains(number)
            &&& after.clients.recovery.reclaimable.contains(client)
        }),
{
    let client = before.clients.slots[name].confirmed->0.client_id;
    let recovered = after.clients.recovered_clients;
    assert(links(before.clients.slots[name], recovered, client));
    assert(is_linked(before.clients.slots, recovered, client));
    assert(after.clients.current_to_previous.contains_key(client));
}

} // verus!
