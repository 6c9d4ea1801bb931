# Concord

A Raft-replicated, CRDT-merged shared-state store for multi-agent systems, written in
Verus.

Raft gives a totally ordered, durable log. The state machine behind the log is made of
conflict-free replicated data types, so concurrent writes merge to the same result in
whatever order they are applied: an insert waits for its parent, and a deletion is
remembered for what it deletes.

## Layout

- `src/crdt`: last-writer-wins register, observed-remove set, RGA sequence, and the keyed
  state. `convergence.rs` and `replicas.rs` hold the proofs that replicas converge.
- `src/raft`: log, node, state machine. `safety.rs` says what one node and a pair of nodes
  keep and what a node keeps in its whole life, `election.rs` that no term has two leaders,
  and `agreement.rs` that committed entries stay and are read back, over whole runs of a
  cluster.
- `src/storage`: write-ahead log, snapshot files, document store.
- `src/server`, `src/client.rs`: what servers and clients say to each other.
- `src/json.rs`, `src/order.rs`, `src/map.rs`: documents, text order, sorted map.
- `tests`: tests of the library from outside.
- `app`: the server program and the Python client: gRPC, files, clocks and threads.

## What is proved

Every function of `src` has a contract that Verus checks. Contracts speak of views: a log
is a sequence of entries, a node is a value of `NodeState`, and what a node does with an
event is a function from state to state. The laws of the library are the public proof
functions whose names begin with `law_`.

What is taken on trust is the behaviour of a few functions of other crates, stated where
they are called: JSON documents (`serde_json`), frames on disk (`bincode`, `crc32fast`),
random identifiers (`uuid`) and random timeouts (`rand`).

## Limits

- Replicas converge where a timestamp and a node id together name one write of a register
  and one insert into a sequence. Two writes under one stamp are told apart by which came
  first.
- A candidate counts the votes that it is told of, not the voters. The proofs over whole
  runs are about networks that lose, delay and reorder messages and make no copies of them;
  one that delivered a vote twice could make a leader without a majority.
- Nothing in a run compacts a log, so the proofs over whole runs have no snapshots in them.
  What one node does with a snapshot is stated for that node.
- A follower's answer to a snapshot does not move the place from which the leader sends it
  entries: as long as the leader stays, it goes on sending its state as a snapshot.
- A node does not install a snapshot that ends before the snapshot that it has already:
  the entries between the two are no longer there to be applied again.
- A client that has used the highest timestamp there is goes on using it.
- A payload of more than 64 MiB is written to the write-ahead log and not read back.
