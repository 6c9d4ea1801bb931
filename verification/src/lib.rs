//! Concord: a replicated shared-state store. A Raft log orders operations and a
//! layer of conflict-free replicated data types merges them.
//!
//! * [`crdt`]: last-writer-wins registers, observed-remove sets, replicated sequences, and
//!   the state that is made of them. Merging is commutative, associative and idempotent,
//!   and replicas that apply the same changes converge, in whatever order the changes come.
//!   A timestamp and a node id together have to name one write, and one insert.
//! * [`raft`]: leader election, replication of the log, and the state machine. In every
//!   cluster whose network may lose, delay and reorder messages but makes no copies of
//!   them, no term has two leaders, logs match, what is committed stays committed, and
//!   nodes that have applied it read it back.
//! * [`storage`]: the write-ahead log, snapshot files and the document store. What was
//!   written is read back, and damage is noticed.
//! * [`server`]: what a server answers its clients and the other nodes.
//! * [`client`]: what a client asks, and what it makes of the answers.
//! * [`json`]: the JSON documents that registers, sequences and the store carry.
//! * [`order`] and [`map`]: text order, and the sorted map that everything is keyed by.
//!
//! Nothing here reads a clock, a file or a socket: the time, the contents of files and the
//! messages of other nodes come in as values, and what has to be written or sent goes out.

pub mod client;
pub mod crdt;
pub mod json;
pub mod map;
pub mod order;
pub mod raft;
pub mod server;
pub mod storage;
