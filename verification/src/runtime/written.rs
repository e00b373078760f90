//! What the journal holds once a change is written, and what the next run makes of it.

use vstd::prelude::*;

use crate::clients::{ClientsView, Registration};
use crate::codec::{be32, from_be32};
use crate::identity::canonical_identity;
use crate::journal::{ChangeView, PreviousShutdown, RecoveredView};
use crate::locks::pieces_normal;
use crate::protocol::{file_of, other_of, stable_of, token_of, Nfs4Limits};
use crate::record::{ClientView, KeyView, RecordView, ReplayOwnerKind};
use crate::recovery::{
    client_filed, clients_hydrated, confirmed_count, has_confirmed, hydrated_lock, hydrated_open, hydrates,
    identity_place, is_lock_as, is_open_as, lemma_identity_place, open_behind, record_sound, records_apart,
    records_recoverable, recoverable, state_count, taken_over, RecoveredStateView,
};
use crate::registry::{lists_client, StateView};
use crate::runtime::complete::{lemma_ancestor, open_changes, open_reclaimed, OpenPlan};
use crate::runtime::confirm::{confirm_changes, confirms, recovered_numbers, ConfirmPlan};
use crate::runtime::expiry::{deletes_keys, deletion_of};
use crate::runtime::lock::{lock_changes, reclaimed, LockPlan};
use crate::runtime::register::{register_changes, registers, stale_changes, RegisterPlan};
use crate::runtime::restart::{lemma_ranges_recovered, piece_writable};
use crate::runtime::revoke::{owner_changes, revocation_changes, revokes, state_changes, state_key, states_of};
use crate::snapshot::owner_key;
use crate::stateid::{client_states, identity_bytes, Slot, SlotState, StatePayload};
use crate::transfer::{confirmed_as, TypedView};

verus! {

/// What the first `n` changes leave under a key: nothing, where they delete it last, and a record, where they put it last.
pub open spec fn left_under(changes: Seq<ChangeView>, key: KeyView, n: nat) -> Option<Option<RecordView>>
    decreases n,
{
    if n == 0 {
        None
    } else {
        match changes[n - 1] {
            ChangeView::Put { key: put, record } => if put == key {
                Some(Some(record))
            } else {
                left_under(changes, key, (n - 1) as nat)
            },
            ChangeView::Delete { key: gone } => if gone == key {
                Some(None)
            } else {
                left_under(changes, key, (n - 1) as nat)
            },
        }
    }
}

/// A slot holds a living state of a client.
pub open spec fn slot_of_client(slot: Slot, client: u64) -> bool {
    slot.state matches SlotState::Active(record) && record.client == client
}

/// The key of the record of the state in a slot: its state id of now.
pub open spec fn slot_key(boot_tag: u32, slots: Seq<Slot>, i: int) -> KeyView {
    let token = match slots[i].state {
        SlotState::Active(record) => be32(record.sequence_id) + identity_bytes(boot_tag, i as u32, slots[i].generation),
        _ => seq![],
    };
    match slots[i].state {
        SlotState::Active(record) => match record.payload {
            StatePayload::Open(_) => KeyView::Open { state_token: token },
            StatePayload::Lock(_) => KeyView::Lock { state_token: token },
        },
        _ => KeyView::Open { state_token: token },
    }
}

/// The states of a client are those in its slots.
proof fn lemma_states_in_slots(boot_tag: u32, slots: Seq<Slot>, client: u64, n: nat)
    requires
        n <= slots.len(),
    ensures
        forall|k: int|
            0 <= k < client_states(boot_tag, slots, client, n).len() ==> exists|i: int|
                0 <= i < n && #[trigger] slot_of_client(slots[i], client) && slot_key(boot_tag, slots, i) == state_key(
                    #[trigger] client_states(boot_tag, slots, client, n)[k],
                ),
        forall|i: int|
            0 <= i < n && #[trigger] slot_of_client(slots[i], client) ==> exists|k: int|
                0 <= k < client_states(boot_tag, slots, client, n).len() && slot_key(boot_tag, slots, i) == state_key(
                    #[trigger] client_states(boot_tag, slots, client, n)[k],
                ),
    decreases n,
{
    if n > 0 {
        let m = (n - 1) as nat;
        lemma_states_in_slots(boot_tag, slots, client, m);
        let before = client_states(boot_tag, slots, client, m);
        let after = client_states(boot_tag, slots, client, n);
        assert forall|k: int| 0 <= k < after.len() implies exists|i: int|
            0 <= i < n && #[trigger] slot_of_client(slots[i], client) && slot_key(boot_tag, slots, i) == state_key(
                #[trigger] after[k],
            ) by {
            if k < before.len() {
                assert(after[k] == before[k]);
                let i = choose|i: int|
                    0 <= i < m && #[trigger] slot_of_client(slots[i], client) && slot_key(boot_tag, slots, i)
                        == state_key(before[k]);
                assert(slot_of_client(slots[i], client));
            } else {
                assert(slot_of_client(slots[m as int], client));
            }
        }
        assert forall|i: int| 0 <= i < n && #[trigger] slot_of_client(slots[i], client) implies exists|k: int|
            0 <= k < after.len() && slot_key(boot_tag, slots, i) == state_key(#[trigger] after[k]) by {
            if i < m {
                let k = choose|k: int|
                    0 <= k < before.len() && slot_key(boot_tag, slots, i) == state_key(#[trigger] before[k]);
                assert(after[k] == before[k]);
            } else {
                assert(after.last() == after[after.len() - 1]);
            }
        }
    }
}

/// The key of a record that is a client's: its own, that of one of its states, or that of the last reply to one of its
/// owners.
pub open spec fn key_of_client(state: StateView, client: u64, key: KeyView) -> bool {
    ||| key == (KeyView::Client { client_id: client })
    ||| exists|i: int|
        0 <= i < state.stateids.slots.len() && #[trigger] slot_of_client(state.stateids.slots[i], client) && key
            == slot_key(state.stateids.boot_tag, state.stateids.slots, i)
    ||| exists|place: Seq<u8>| #[trigger]
        state.open_owners.contains_key(place) && state.open_owners[place].key.client_id == client && key
            == (KeyView::Replay {
            client_id: client,
            owner_kind: ReplayOwnerKind::Open,
            owner: state.open_owners[place].key.owner@,
        })
    ||| exists|place: Seq<u8>| #[trigger]
        state.lock_owners.contains_key(place) && state.lock_owners[place].key.client_id == client && key
            == (KeyView::Replay {
            client_id: client,
            owner_kind: ReplayOwnerKind::Lock,
            owner: state.lock_owners[place].key.owner@,
        })
}

/// The end of a client deletes its record, the record of every open and of every lock that it has, and the last reply to
/// each of its owners, and nothing else: no record is put, and none of another client is touched.
pub proof fn lemma_revocation_deletes(state: StateView, client: u64, changes: Seq<ChangeView>)
    requires
        revokes(state, client, changes),
    ensures
        forall|i: int|
            0 <= i < changes.len() ==> ((#[trigger] changes[i]) matches ChangeView::Delete { key } && key_of_client(
                state,
                client,
                key,
            )),
        forall|key: KeyView| #[trigger]
            key_of_client(state, client, key) ==> changes.contains(ChangeView::Delete { key }),
{
    let (opens, locks) = choose|opens: Seq<Seq<u8>>, locks: Seq<Seq<u8>>|
        lists_client(opens, state.open_owners, client) && lists_client(
            locks,
            state.lock_owners,
            client,
        ) && changes == #[trigger] revocation_changes(state, client, opens, locks);
    let table = state.stateids;
    let states = states_of(state, client);
    lemma_states_in_slots(table.boot_tag, table.slots, client, table.slots.len());
    let first = seq![ChangeView::Delete { key: KeyView::Client { client_id: client } }];
    let second = state_changes(states);
    let third = owner_changes(state.open_owners, opens, ReplayOwnerKind::Open);
    let fourth = owner_changes(state.lock_owners, locks, ReplayOwnerKind::Lock);
    let a: int = 1 + states.len() as int;
    let b: int = a + opens.len() as int;
    assert(changes == first + second + third + fourth);
    assert forall|i: int| 0 <= i < changes.len() implies ((#[trigger] changes[i]) matches ChangeView::Delete { key }
        && key_of_client(state, client, key)) by {
        if i == 0 {
            assert(changes[i] == first[0]);
        } else if i < a {
            assert(changes[i] == second[i - 1]);
            assert(changes[i] == (ChangeView::Delete { key: state_key(states[i - 1]) }));
        } else if i < b {
            assert(changes[i] == third[i - a]);
            assert(opens.contains(opens[i - a]));
            assert(state.open_owners.contains_key(opens[i - a]));
        } else {
            assert(changes[i] == fourth[i - b]);
            assert(locks.contains(locks[i - b]));
            assert(state.lock_owners.contains_key(locks[i - b]));
        }
    }
    assert forall|key: KeyView| #[trigger] key_of_client(state, client, key) implies changes.contains(
        ChangeView::Delete { key },
    ) by {
        if key == (KeyView::Client { client_id: client }) {
            assert(changes[0] == first[0]);
        } else if exists|i: int|
            0 <= i < table.slots.len() && #[trigger] slot_of_client(table.slots[i], client) && key == slot_key(
                table.boot_tag,
                table.slots,
                i,
            ) {
            let i = choose|i: int|
                0 <= i < table.slots.len() && #[trigger] slot_of_client(table.slots[i], client) && key == slot_key(
                    table.boot_tag,
                    table.slots,
                    i,
                );
            let k = choose|k: int| 0 <= k < states.len() && key == state_key(#[trigger] states[k]);
            assert(changes[k + 1] == second[k]);
        } else if exists|place: Seq<u8>| #[trigger]
            state.open_owners.contains_key(place) && state.open_owners[place].key.client_id == client && key
                == (KeyView::Replay {
                client_id: client,
                owner_kind: ReplayOwnerKind::Open,
                owner: state.open_owners[place].key.owner@,
            }) {
            let place = choose|place: Seq<u8>| #[trigger]
                state.open_owners.contains_key(place) && state.open_owners[place].key.client_id == client && key
                    == (KeyView::Replay {
                    client_id: client,
                    owner_kind: ReplayOwnerKind::Open,
                    owner: state.open_owners[place].key.owner@,
                });
            assert(opens.contains(place));
            let k = opens.index_of(place);
            assert(changes[a + k] == third[k]);
        } else {
            let place = choose|place: Seq<u8>| #[trigger]
                state.lock_owners.contains_key(place) && state.lock_owners[place].key.client_id == client && key
                    == (KeyView::Replay {
                    client_id: client,
                    owner_kind: ReplayOwnerKind::Lock,
                    owner: state.lock_owners[place].key.owner@,
                });
            assert(locks.contains(place));
            let k = locks.index_of(place);
            assert(changes[b + k] == fourth[k]);
        }
    }
}

/// A confirmation writes the client down as confirmed, with its name, its verifier and its sender. Of the records of other
/// clients, it deletes those of the client that is replaced.
pub proof fn lemma_confirmation_written(state: StateView, plan: ConfirmPlan, changes: Seq<ChangeView>)
    requires
        confirms(state, plan, changes),
    ensures
        changes.len() > 0,
        changes[0] == (ChangeView::Put {
            key: KeyView::Client { client_id: plan.record.client_id },
            record: RecordView::Client(
                ClientView {
                    client_id: plan.record.client_id,
                    owner: plan.record.owner@,
                    verifier: plan.record.verifier@,
                    canonical_principal: canonical_identity(plan.record.principal@),
                    confirmed: true,
                },
            ),
        }),
        forall|i: int|
            0 < i < changes.len() ==> plan.replaced is Some && ((#[trigger] changes[i]) matches ChangeView::Delete { key }
                && key_of_client(state, plan.replaced->0, key)),
        plan.replaced matches Some(old) ==> forall|key: KeyView| #[trigger]
            key_of_client(state, old, key) ==> changes.contains(ChangeView::Delete { key }),
{
    let revocation = choose|revocation: Seq<ChangeView>|
        changes == #[trigger] confirm_changes(plan, revocation) && match plan.replaced {
            Some(client) => revokes(state, client, revocation),
            None => revocation.len() == 0,
        };
    if let Some(old) = plan.replaced {
        lemma_revocation_deletes(state, old, revocation);
        assert forall|i: int| 0 < i < changes.len() implies ((#[trigger] changes[i]) matches ChangeView::Delete { key }
            && key_of_client(state, old, key)) by {
            assert(changes[i] == revocation[i - 1]);
        }
        assert forall|key: KeyView| #[trigger] key_of_client(state, old, key) implies changes.contains(
            ChangeView::Delete { key },
        ) by {
            let k = revocation.index_of(ChangeView::Delete { key });
            assert(changes[k + 1] == revocation[k]);
        }
    }
}

/// A registration that is new is written down as not confirmed. The clients that it does away with are deleted, and of
/// the one whose state it ends everything is.
pub proof fn lemma_registration_written(state: StateView, plan: RegisterPlan, changes: Seq<ChangeView>)
    requires
        registers(state, plan, changes),
    ensures
        forall|i: int|
            0 <= i < changes.len() ==> ((#[trigger] changes[i]) matches ChangeView::Put { key, record } ==> !plan.known
                && key == (KeyView::Client { client_id: plan.record.client_id }) && record == RecordView::Client(
                ClientView {
                    client_id: plan.record.client_id,
                    owner: plan.record.owner@,
                    verifier: plan.record.verifier@,
                    canonical_principal: canonical_identity(plan.record.principal@),
                    confirmed: false,
                },
            )),
        !plan.known ==> changes.len() > 0 && changes.last() is Put,
        forall|i: int|
            0 <= i < changes.len() ==> ((#[trigger] changes[i]) matches ChangeView::Delete { key } ==> ({
                ||| key matches KeyView::Client { client_id } && plan.stale@.contains(client_id)
                ||| key matches KeyView::Client { client_id } && plan.replacing == Some(client_id) && client_id
                    != plan.record.client_id
                ||| plan.releasing is Some && key_of_client(state, plan.releasing->0, key)
            })),
        forall|k: int|
            0 <= k < plan.stale@.len() ==> changes.contains(
                ChangeView::Delete { key: KeyView::Client { client_id: #[trigger] plan.stale@[k] } },
            ),
        plan.releasing matches Some(old) ==> forall|key: KeyView| #[trigger]
            key_of_client(state, old, key) ==> changes.contains(ChangeView::Delete { key }),
{
    let revocation = choose|revocation: Seq<ChangeView>|
        changes == #[trigger] register_changes(plan, revocation) && match plan.releasing {
            Some(client) => revokes(state, client, revocation),
            None => revocation.len() == 0,
        };
    let gone = stale_changes(plan.stale@);
    let replaced = if plan.replacing matches Some(old) && old != plan.record.client_id {
        gone.push(ChangeView::Delete { key: KeyView::Client { client_id: plan.replacing->0 } })
    } else {
        gone
    };
    let released = replaced + revocation;
    if let Some(old) = plan.releasing {
        lemma_revocation_deletes(state, old, revocation);
    }
    assert forall|i: int| 0 <= i < released.len() implies (#[trigger] released[i]) is Delete && changes[i] == released[i]
        && ({
        let key = released[i]->Delete_key;
        ||| key matches KeyView::Client { client_id } && plan.stale@.contains(client_id)
        ||| key matches KeyView::Client { client_id } && plan.replacing == Some(client_id) && client_id
            != plan.record.client_id
        ||| plan.releasing is Some && key_of_client(state, plan.releasing->0, key)
    }) by {
        if i < gone.len() {
            assert(released[i] == gone[i]);
            assert(plan.stale@.contains(plan.stale@[i]));
        } else if i < replaced.len() {
            assert(released[i] == replaced[i]);
        } else {
            assert(released[i] == revocation[i - replaced.len()]);
        }
    }
    assert forall|k: int| 0 <= k < plan.stale@.len() implies changes.contains(
        ChangeView::Delete { key: KeyView::Client { client_id: #[trigger] plan.stale@[k] } },
    ) by {
        assert(released[k] == gone[k]);
        assert(changes[k] == released[k]);
    }
    if let Some(old) = plan.releasing {
        assert forall|key: KeyView| #[trigger] key_of_client(state, old, key) implies changes.contains(
            ChangeView::Delete { key },
        ) by {
            let k = revocation.index_of(ChangeView::Delete { key });
            assert(released[replaced.len() + k] == revocation[k]);
            assert(changes[replaced.len() + k] == released[replaced.len() + k]);
        }
    }
}

/// A client of the run before is known again where it registers with the same name and the same verifier, from the same
/// sender: it then has the number that it had, and no client but those that were confirmed so has any.
pub proof fn lemma_known_again(clients: ClientsView, records: Seq<TypedView>, record: Registration, number: u64)
    requires
        clients_hydrated(clients.recovered_clients, records, records.len()),
        record.owner@.len() <= u32::MAX,
        forall|i: int|
            0 <= i < records.len() ==> ((#[trigger] records[i]).1 matches RecordView::Client(client) ==> client.owner.len()
                <= u32::MAX && client.verifier.len() == 8),
    ensures
        recovered_numbers(clients, record).contains(number) <==> exists|i: int|
            0 <= i < records.len() && (#[trigger] records[i]).1 == RecordView::Client(
                ClientView {
                    client_id: number,
                    owner: record.owner@,
                    verifier: record.verifier@,
                    canonical_principal: canonical_identity(record.principal@),
                    confirmed: true,
                },
            ),
{
    let name = record.owner@;
    let check = record.verifier@;
    let sender = canonical_identity(record.principal@);
    let place = identity_place(name, check, sender);
    if recovered_numbers(clients, record).contains(number) {
        assert(clients.recovered_clients[place].contains(number));
        let i = choose|i: int| 0 <= i < records.len() && client_filed((#[trigger] records[i]).1, place, number);
        if let RecordView::Client(client) = records[i].1 {
            lemma_identity_place(client.owner, client.verifier, client.canonical_principal, name, check, sender);
        }
    }
    if exists|i: int|
        0 <= i < records.len() && (#[trigger] records[i]).1 == RecordView::Client(
            ClientView { client_id: number, owner: name, verifier: check, canonical_principal: sender, confirmed: true },
        ) {
        let i = choose|i: int|
            0 <= i < records.len() && (#[trigger] records[i]).1 == RecordView::Client(
                ClientView {
                    client_id: number,
                    owner: name,
                    verifier: check,
                    canonical_principal: sender,
                    confirmed: true,
                },
            );
        assert(client_filed(records[i].1, place, number));
    }
}

/// An open of the run before that is reclaimed is deleted from the journal with the last reply to its owner, and is not
/// deleted again when the time to reclaim is over. What others have left to reclaim stays.
pub proof fn lemma_open_reclaim_written(state: StateView, plan: OpenPlan, reply: Seq<u8>, identity: [u8; 12])
    requires
        plan.recovered is Some,
        identity@ == other_of(plan.recovered->0.state_token@),
        plan.recovered->0.state_token@ != token_of(plan.state_id),
        plan.recovered->0.previous_client_id != plan.target.owner.owner.client_id,
    ensures
        ({
            let had = plan.recovered->0;
            let changes = open_changes(plan, reply);
            let after = open_reclaimed(state, plan);
            let open = KeyView::Open { state_token: had.state_token@ };
            let told = KeyView::Replay {
                client_id: had.previous_client_id,
                owner_kind: ReplayOwnerKind::Open,
                owner: had.owner@,
            };
            &&& left_under(changes, open, changes.len()) == Some(None::<RecordView>)
            &&& left_under(changes, told, changes.len()) == Some(None::<RecordView>)
            &&& left_under(changes, KeyView::Open { state_token: token_of(plan.state_id) }, changes.len()) matches Some(
                Some(_),
            )
            &&& !after.recovered_opens.contains_key(had.state_token@)
            &&& !after.recovered_cleanup_keys.contains(open)
            &&& !after.recovered_cleanup_keys.contains(told)
            &&& !after.recovered_replays.contains_key(
                owner_key(had.previous_client_id, ReplayOwnerKind::Open, had.owner@),
            )
            &&& after.reclaimed_open_ancestry.contains_key(plan.state_id.other@)
            &&& after.reclaimed_open_ancestry[plan.state_id.other@] == identity
            &&& forall|token: Seq<u8>|
                token != had.state_token@ ==> (#[trigger] after.recovered_opens.contains_key(token)
                    == state.recovered_opens.contains_key(token))
            &&& forall|key: KeyView|
                key != open && key != told ==> (#[trigger] after.recovered_cleanup_keys.contains(key)
                    == state.recovered_cleanup_keys.contains(key))
            &&& after.recovered_locks == state.recovered_locks
        }),
{
    reveal_with_fuel(left_under, 6);
    let had = plan.recovered->0;
    let changes = open_changes(plan, reply);
    lemma_ancestor(had.state_token, identity);
    if plan.target.existing_state is Some {
        assert(changes.len() == 5);
        assert(changes[1] == (ChangeView::Delete { key: KeyView::Open { state_token: had.state_token@ } }));
        assert(changes[3] is Put && changes[4] is Put);
    } else {
        assert(changes.len() == 4);
        assert(changes[0] == (ChangeView::Delete { key: KeyView::Open { state_token: had.state_token@ } }));
        assert(changes[2] is Put && changes[3] is Put);
    }
}

/// What is left of the locks of the run before once some of them are reclaimed is what a next run would find of them; where
/// nothing is left they are deleted, and are not deleted again when the time to reclaim is over. What others have left to
/// reclaim stays.
pub proof fn lemma_lock_reclaim_written(state: StateView, plan: LockPlan, reply: Seq<u8>)
    requires
        plan.recovered is Some,
        plan.recovered->0.state_token@ != token_of(plan.state_id),
        plan.recovered->0.previous_client_id != plan.reservation.owner.client_id,
        plan.open_reservation matches Some(open) ==> open.owner.client_id != plan.recovered->0.previous_client_id,
        plan.remainder matches Some(rest) ==> rest.state_token@ == plan.recovered->0.state_token@ && pieces_normal(
            rest.ranges@,
        ) && forall|i: int| 0 <= i < rest.ranges@.len() ==> piece_writable(#[trigger] rest.ranges@[i]),
    ensures
        ({
            let had = plan.recovered->0;
            let changes = lock_changes(plan, reply);
            let after = reclaimed(state, plan.recovered, plan.remainder);
            let lock = KeyView::Lock { state_token: had.state_token@ };
            let told = KeyView::Replay {
                client_id: had.previous_client_id,
                owner_kind: ReplayOwnerKind::Lock,
                owner: had.owner@,
            };
            &&& match plan.remainder {
                None => {
                    &&& left_under(changes, lock, changes.len()) == Some(None::<RecordView>)
                    &&& !after.recovered_locks.contains_key(had.state_token@)
                    &&& !after.recovered_cleanup_keys.contains(lock)
                },
                Some(rest) => {
                    &&& left_under(changes, lock, changes.len()) matches Some(Some(RecordView::Lock(record)))
                    &&& hydrated_lock(record, rest.previous_open_state_token@) == rest@
                    &&& after.recovered_locks.contains_key(had.state_token@)
                    &&& after.recovered_locks[had.state_token@] == rest
                    &&& after.recovered_cleanup_keys.contains(lock) == state.recovered_cleanup_keys.contains(lock)
                },
            }
            &&& left_under(changes, told, changes.len()) == Some(None::<RecordView>)
            &&& !after.recovered_cleanup_keys.contains(told)
            &&& !after.recovered_replays.contains_key(
                owner_key(had.previous_client_id, ReplayOwnerKind::Lock, had.owner@),
            )
            &&& forall|token: Seq<u8>|
                token != had.state_token@ ==> (#[trigger] after.recovered_locks.contains_key(token)
                    == state.recovered_locks.contains_key(token))
            &&& forall|key: KeyView|
                key != lock && key != told ==> (#[trigger] after.recovered_cleanup_keys.contains(key)
                    == state.recovered_cleanup_keys.contains(key))
            &&& after.recovered_opens == state.recovered_opens
        }),
{
    reveal_with_fuel(left_under, 8);
    let had = plan.recovered->0;
    let changes = lock_changes(plan, reply);
    if let Some(rest) = plan.remainder {
        lemma_ranges_recovered(rest.ranges@);
        assert(file_of(stable_of(rest.file)) == rest.file);
        if plan.open_reservation is Some {
            assert(changes.len() == 6);
            assert(changes[2] is Put);
            assert(changes[3] is Delete);
        } else {
            assert(changes.len() == 6);
            assert(changes[4] is Put);
            assert(changes[5] is Delete);
        }
    } else {
        if plan.open_reservation is Some {
            assert(changes.len() == 5);
            assert(changes[1] is Delete);
            assert(changes[2] is Delete);
        } else {
            assert(changes.len() == 5);
            assert(changes[3] is Delete);
            assert(changes[4] is Delete);
        }
    }
}

/// Every open that a run takes over from the one before is of a client that is known again, and its state id is one that a
/// client of that run can have had. It allows something, and has an owner with a name.
pub proof fn lemma_recovered_opens(
    state: RecoveredStateView,
    records: Seq<TypedView>,
    replies: Seq<Option<Seq<u8>>>,
    limits: Nfs4Limits,
    token: Seq<u8>,
)
    requires
        records_recoverable(records, replies, limits),
        hydrates(state, records, replies, limits),
        state.opens.contains_key(token),
    ensures
        state.opens[token].state_token == token,
        known_number(state, state.opens[token].previous_client_id),
        id_of_run(token, state.opens[token].previous_client_id),
        state.opens[token].access.read || state.opens[token].access.write,
        0 < state.opens[token].owner.len() <= limits.max_client_owner_size,
{
    let i = choose|i: int| 0 <= i < records.len() && is_open_as((#[trigger] records[i]).1, token);
    assert(record_sound(records, replies, i, limits));
    if let RecordView::Open(open) = records[i].1 {
        lemma_number_known(state, records, open.client_id);
    }
}

/// Every lock that a run takes over from the one before is held through an open that is taken over too, of the same client
/// and the same file. Its client is known again, and its state id is one that a client of that run can have had.
pub proof fn lemma_recovered_locks(
    state: RecoveredStateView,
    records: Seq<TypedView>,
    replies: Seq<Option<Seq<u8>>>,
    limits: Nfs4Limits,
    token: Seq<u8>,
)
    requires
        records_recoverable(records, replies, limits),
        hydrates(state, records, replies, limits),
        state.locks.contains_key(token),
    ensures
        ({
            let lock = state.locks[token];
            let open = state.opens[lock.previous_open_state_token];
            &&& lock.state_token == token
            &&& known_number(state, lock.previous_client_id)
            &&& id_of_run(token, lock.previous_client_id)
            &&& 0 < lock.owner.len() <= limits.max_client_owner_size
            &&& lock.ranges.len() <= limits.max_lock_ranges_per_state
            &&& state.opens.contains_key(lock.previous_open_state_token)
            &&& open.previous_client_id == lock.previous_client_id
            &&& open.file == lock.file
        }),
{
    let i = choose|i: int| 0 <= i < records.len() && is_lock_as((#[trigger] records[i]).1, token);
    assert(record_sound(records, replies, i, limits));
    if let RecordView::Lock(lock) = records[i].1 {
        lemma_number_known(state, records, lock.client_id);
        let j = choose|j: int|
            0 <= j < records.len() && #[trigger] open_behind(
                records,
                j,
                other_of(lock.open_state_token),
                lock.client_id,
                file_of(lock.object),
            );
        if let RecordView::Open(open) = records[j].1 {
            assert(state.locks[token] == hydrated_lock(lock, open.state_token));
            assert(state.opens[open.state_token] == hydrated_open(open, limits));
        }
    }
}

/// Among the opens and locks that a run takes over from the one before, no two have the same identity.
pub proof fn lemma_recovered_apart(
    state: RecoveredStateView,
    records: Seq<TypedView>,
    replies: Seq<Option<Seq<u8>>>,
    limits: Nfs4Limits,
    a: Seq<u8>,
    b: Seq<u8>,
)
    requires
        records_recoverable(records, replies, limits),
        hydrates(state, records, replies, limits),
        other_of(a) == other_of(b),
    ensures
        state.opens.contains_key(a) && state.opens.contains_key(b) ==> a == b,
        state.locks.contains_key(a) && state.locks.contains_key(b) ==> a == b,
        !(state.opens.contains_key(a) && state.locks.contains_key(b)),
{
    let i = if state.opens.contains_key(a) {
        choose|i: int| 0 <= i < records.len() && is_open_as((#[trigger] records[i]).1, a)
    } else {
        choose|i: int| 0 <= i < records.len() && is_lock_as((#[trigger] records[i]).1, a)
    };
    let k = choose|k: int| 0 <= k < records.len() && is_lock_as((#[trigger] records[k]).1, a);
    let j = choose|j: int| 0 <= j < records.len() && is_open_as((#[trigger] records[j]).1, b);
    let l = choose|l: int| 0 <= l < records.len() && is_lock_as((#[trigger] records[l]).1, b);
    lemma_apart(records, replies, limits, i, j);
    lemma_apart(records, replies, limits, i, l);
    lemma_apart(records, replies, limits, k, l);
}

/// Two records at different places are apart.
proof fn lemma_apart(
    records: Seq<TypedView>,
    replies: Seq<Option<Seq<u8>>>,
    limits: Nfs4Limits,
    i: int,
    j: int,
)
    requires
        records_recoverable(records, replies, limits),
    ensures
        0 <= i < records.len() && 0 <= j < records.len() && i != j ==> records_apart(records[i].1, records[j].1),
{
    if 0 <= i < records.len() && 0 <= j < records.len() && i != j {
        if i < j {
            assert(records_apart(records[i].1, records[j].1));
        } else {
            assert(records_apart(records[j].1, records[i].1));
        }
    }
}

/// A client with that number is known again.
pub open spec fn known_number(state: RecoveredStateView, number: u64) -> bool {
    exists|place: Seq<u8>| #[trigger] state.clients.contains_key(place) && state.clients[place].contains(number)
}

/// A state id of the run in which a client had its number: the upper half of the number is the tag of the run, with which
/// the state id begins behind its own number. None of the special state ids is one.
pub open spec fn id_of_run(token: Seq<u8>, number: u64) -> bool {
    let tag = token.skip(4).take(4);
    &&& from_be32(tag) == (number >> 32) as u32
    &&& from_be32(tag) != 0
    &&& from_be32(tag) != u32::MAX
    &&& from_be32(token.take(4)) != 0
}

/// A client with a confirmed record is known again.
proof fn lemma_number_known(state: RecoveredStateView, records: Seq<TypedView>, number: u64)
    requires
        clients_hydrated(state.clients, records, records.len()),
        has_confirmed(records, number),
    ensures
        known_number(state, number),
{
    let i = choose|i: int|
        0 <= i < records.len() && confirmed_as((#[trigger] records[i]).1, number);
    if let RecordView::Client(client) = records[i].1 {
        let place = identity_place(client.owner, client.verifier, client.canonical_principal);
        assert(client_filed(records[i].1, place, number));
        assert(state.clients.contains_key(place));
    }
}

/// The number of opens and locks is that of their records.
proof fn lemma_states_counted(records: Seq<TypedView>, n: nat)
    requires
        n <= records.len(),
    ensures
        state_count(records, n) == records.take(n as int).filter(|r: TypedView| r.1 is Open || r.1 is Lock).len(),
    decreases n,
{
    let chosen = |r: TypedView| r.1 is Open || r.1 is Lock;
    if n > 0 {
        let m = (n - 1) as nat;
        lemma_states_counted(records, m);
        assert(records.take(n as int) =~= records.take(m as int).push(records[m as int]));
        assert(records.take(n as int).drop_last() =~= records.take(m as int));
        reveal(Seq::filter);
    } else {
        assert(records.take(0) =~= seq![]);
        reveal(Seq::filter);
    }
}

/// The number of confirmed clients is that of their records.
proof fn lemma_confirmed_counted(records: Seq<TypedView>, n: nat)
    requires
        n <= records.len(),
    ensures
        confirmed_count(records, n) == records.take(n as int).filter(
            |r: TypedView| r.1 is Client && (r.1->Client_0).confirmed,
        ).len(),
    decreases n,
{
    if n > 0 {
        let m = (n - 1) as nat;
        lemma_confirmed_counted(records, m);
        assert(records.take(n as int) =~= records.take(m as int).push(records[m as int]));
        assert(records.take(n as int).drop_last() =~= records.take(m as int));
        reveal(Seq::filter);
    } else {
        assert(records.take(0) =~= seq![]);
        reveal(Seq::filter);
    }
}

/// A run takes over no more clients, opens and locks than it can hold.
pub proof fn lemma_recovered_bounded(records: Seq<TypedView>, replies: Seq<Option<Seq<u8>>>, limits: Nfs4Limits)
    requires
        records_recoverable(records, replies, limits),
    ensures
        records.filter(|r: TypedView| r.1 is Open || r.1 is Lock).len() <= limits.max_state_objects,
        records.filter(|r: TypedView| r.1 is Client && (r.1->Client_0).confirmed).len() <= limits.max_clients,
{
    lemma_states_counted(records, records.len());
    lemma_confirmed_counted(records, records.len());
    assert(records.take(records.len() as int) =~= records);
}

/// Each owner of the run before has one last reply: no two replies that a run takes over are one owner's.
pub proof fn lemma_recovered_replies(
    records: Seq<TypedView>,
    replies: Seq<Option<Seq<u8>>>,
    limits: Nfs4Limits,
    i: int,
    j: int,
)
    requires
        records_recoverable(records, replies, limits),
        0 <= i < records.len(),
        0 <= j < records.len(),
        i != j,
        records[i].1 is Replay,
        records[j].1 is Replay,
    ensures
        ({
            let one = records[i].1->Replay_0;
            let two = records[j].1->Replay_0;
            one.client_id != two.client_id || one.owner_kind != two.owner_kind || one.owner != two.owner
        }),
{
    lemma_apart(records, replies, limits, i, j);
}

/// When the time to reclaim is over, the records of all clients, opens, locks and last replies of the run before that were
/// not reclaimed are deleted, and no others.
pub proof fn lemma_cleanup_deletes(
    state: RecoveredStateView,
    records: Seq<TypedView>,
    replies: Seq<Option<Seq<u8>>>,
    limits: Nfs4Limits,
    changes: Seq<ChangeView>,
    i: int,
)
    requires
        hydrates(state, records, replies, limits),
        deletes_keys(changes, state.cleanup_keys),
    ensures
        0 <= i < records.len() && (records[i].1 is Client || records[i].1 is Open || records[i].1 is Lock || records[i].1
            is Replay) ==> changes.contains(ChangeView::Delete { key: records[i].0 }),
        0 <= i < changes.len() ==> (changes[i] matches ChangeView::Delete { key } && exists|j: int|
            0 <= j < records.len() && (#[trigger] records[j]).0 == key && (records[j].1 is Client || records[j].1 is Open
                || records[j].1 is Lock || records[j].1 is Replay)),
{
    let listed = choose|listed: Seq<KeyView>|
        listed.no_duplicates() && listed.to_set() == state.cleanup_keys && #[trigger] deletion_of(changes, listed);
    if 0 <= i < records.len() && taken_over(records[i].1) {
        assert(state.cleanup_keys.contains(records[i].0));
        assert(listed.to_set().contains(records[i].0));
        let k = listed.index_of(records[i].0);
        assert(changes[k] == (ChangeView::Delete { key: records[i].0 }));
    }
    if 0 <= i < changes.len() {
        assert(listed.to_set().contains(listed[i]));
        assert(state.cleanup_keys.contains(listed[i]));
    }
}

/// A run takes over what the one before left only where there was one, and gives clients some time to reclaim it.
pub proof fn lemma_taken_over_from(
    recovered: RecoveredView,
    replies: Seq<Option<Seq<u8>>>,
    limits: Nfs4Limits,
    minimum_grace_duration: u64,
)
    requires
        recoverable(recovered, replies, limits, minimum_grace_duration),
    ensures
        minimum_grace_duration > 0,
        recovered.previous_shutdown == PreviousShutdown::FirstBoot <==> recovered.previous_boot is None,
        recovered.previous_boot is None ==> recovered.records.len() == 0,
        recovered.previous_boot is Some ==> records_recoverable(recovered.records, replies, limits),
{
}

} // verus!
