# nfsembed state

The state of an embeddable NFSv4.0 server, verified with Verus: a fenced journal of protocol records, and the clients,
leases, owners, opens, byte-range locks and recovery that it makes durable.

## Layout

- `src/codec.rs`, `src/record.rs`, `src/layout.rs`, `src/wire.rs`, `src/check.rs`: the records of the journal, their
  encoding, and what makes a record sound. `src/roundtrip.rs` and `src/canonical.rs` prove that the encoding loses
  nothing and that every value has one encoding.
- `src/snapshot.rs`, `src/transfer.rs`, `src/commit.rs`, `src/journal.rs` and `src/journal/`: images of the store, the
  commits that change them, starting up, and migrations. `laws.rs`, `durable.rs` and `runs.rs` hold what is true of the
  journal as a whole, and of one run after another.
- `src/owner.rs`, `src/share.rs`, `src/locks.rs`, `src/stateid.rs`, `src/lease.rs`, `src/identity.rs`: sequences of
  owners, share reservations, byte ranges, state ids, leases and grace, and who a client is.
- `src/clients.rs`, `src/registry.rs`, `src/files.rs`, `src/recovery.rs`, `src/merge.rs`: the registries, and what a
  run inherits from the one before.
- `src/runtime.rs` and `src/runtime/`: what the server does for each request. `laws.rs`, `agreement.rs`, `capacity.rs`
  and `restart.rs` hold what is true of it as a whole.
- `src/bytemap.rs`, `src/numbermap.rs`, `src/keyset.rs`, `src/idlist.rs`: collections.
- `app/`: sessions of the store, clocks, turns and tasks around the library.
- `tests/`: scenarios against a store and a clock under the test's control.

## How a request runs

Nothing in the library waits. A request that must become durable asks for a plan, and the plan says what is to be
written. The caller commits that, and hands the outcome back: the plan is carried out where the commit succeeded and
undone where it did not. Time is a number that the caller passes in; the unit is the caller's.

## What is not proved

Three functions are trusted: `entropy::random_array` (random bytes of the operating system), `identity::digest_of`
(SHA-256) and `protocol::share` (another handle to a shared value). Replies are opaque here: the
caller encodes them, and reads those of the run before back into operations, which are compared byte by byte.
