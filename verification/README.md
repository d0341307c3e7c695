# crucible_test_context

A test context for fuzzing programs on a LiteSVM machine. The library under `src/` holds the context and its
builders, snapshots, the probes that mutate accounts, the record of a session, and coverage reports. Its
functions have contracts that Verus proves; the calls into other crates stand behind wrappers whose doc
comments say what is taken for granted of them. Of what the clock of the host gives, and of secrets that are
drawn at random, nothing is said.

- `src/context.rs`, `builders.rs`, `account_builders.rs`, `send.rs`, `svm.rs`, `ready.rs`: the context, how
  transactions are put together and sent, and which of them a machine can take.
- `src/snapshot.rs`, `rewind.rs`, `sysvars.rs`, `debug.rs`: the state of the machine, and how it is taken back.
- `src/mutation/`: which accounts a transaction should have checked, and which it did not.
- `src/session.rs`, `actions.rs`, `outcome.rs`, `schema.rs`, `discriminators.rs`: what is recorded of a run.
- `src/replay.rs`, `paths.rs`: which finding the metadata of a crash names, and where those metadata lie.
- `src/coverage/`: control flow, debug information, LCOV records and HTML pages.
- `src/rpc.rs`, `oracles.rs`, `token.rs`: accounts of a cluster, price feeds and tokens.
- `app/`: the thread's state, the environment, files, and impls of the traits of other crates.
- `tests/`: tests of the library.
