# mica

A relational task system in verified Rust.

- `src/kernel` holds relations: rows and their indexes, snapshots, transactions, conflict
  checks, commits, forks, rules and the layers that negation needs, method dispatch, the
  catalog as relations, and the records that a store keeps of all this.
- `src/driver` holds the rules of a task driver: admission to the processors, what each
  outcome of a task leads to, endpoints and the facts that they hold, mailboxes,
  subscriptions, events, and shutting down.
- `src/protocol` holds the dependencies that a view names, and how a value tells them.
- `src/value.rs`, `src/value_codec.rs` and `src/tuple.rs` hold values and rows, with the byte
  keys that order them and the bytes that they are stored as. `src/relation_value.rs` holds
  relations as values. A floating number is held by its place in the order of such numbers.

Each function states what it does in `ensures`, over the views of the values involved. The
public proof functions whose names begin with `law_` state what holds of several functions
together: what a commit shows, what replaying a log gives back, what a fork tells once it is
published, what a store holds after a commit, what reading a record gives back, that keys stay
apart, that each queued event is handed over once and in order, what a shutdown leaves.

A computed relation is computed of what its reader shows, the writes of a transaction among it.
Method dispatch over a computed relation that answers the same each time is stated as over one
that is stored.

What is not proved stands in two places. `src/kernel/radix.rs` says what is taken for granted
of the adaptive radix tree of the `rart` crate, and `src/text.rs` what is taken for granted of
three functions of the standard library.

`app` is ordinary Rust around the library: a shared kernel, a fjall store, a compio driver,
telemetry, and the layout of the machine's processors. `app/kernel.rs` has rules evaluated
before a read needs what they derive, by whatever implements `RuleEvaluator` there, and tasks
are run by whatever implements `TaskRuntime`.
