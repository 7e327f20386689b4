# blop-db

blop-db is an embedded database for Rust. Transactions are small programs; the database writes each
program and its inputs to a durable log before executing it, and runs programs in parallel with the
same results as running them in log order.

This crate holds its logic as a Verus library. Every function of `src/` carries a contract that
Verus proves, except the few of `src/external.rs`: these call other crates or the standard library,
and what their contracts say is believed. Of the random bytes of the system nothing is claimed at
all.

- `src/compiler` translates transaction programs to version-1 bytecode. The contract of `compile`
  fixes every byte of the container, or the diagnostic and its place.
- `src/bind.rs` puts table IDs and captured values into a compiled program.
- `src/vm` and `src/storage.rs` hold the stored forms that the rest relies on: types, catalogue
  operations, access scopes, outcomes, limit policies and manifests.
- `src/database` holds the log records and segments, recovery, exchange formats, durable cursors,
  feeds, imports, snapshots, maintenance and the scheduler.
- `src/external.rs` lists the calls into other crates and what is believed of them.

What the library promises as a whole is stated in public proof functions, among them:

- concurrent execution gives the outcomes and rows of a serial run in log order
  (`database::scheduler::serial`);
- a receipt holds the outcome that was installed for its record, whatever happens in between
  (`database::scheduler::receipts`);
- what was appended is replayed by recovery, once and in order (`database::durability`,
  `database::recovery`);
- a whole recovery ends at the durable end, and another one changes nothing (`database::restart`);
- what a writer encodes, a reader gives back, and readers accept canonical bytes only (next to each
  format);
- nothing of an import is appended before all of it is verified (`database::replica`);
- compiled programs bind, and bound programs name their tables (`compiler::binding`).

`app/` surrounds the library with what Verus does not take: the `tx!` front end on Rust syntax, the
log files, the worker threads and the asynchronous handles. The page store and the transaction
machine are reached through the traits of `app/store.rs`.

`tests/` runs the library on concrete values.
