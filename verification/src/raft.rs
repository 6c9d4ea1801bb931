//! Consensus: leader election, replication of the log, and the state machine that
//! committed entries are applied to.

pub mod agreement;
pub mod conduct;
pub mod election;
pub mod error;
pub mod log;
pub mod message;
pub mod node;
pub mod safety;
pub mod state_machine;

pub use error::RaftError;
pub use message::{
    AppendEntriesRequest, AppendEntriesResponse, RaftMessage, VoteRequest, VoteResponse,
};
pub use node::{NodeRole, RaftConfig, RaftNode};
pub use state_machine::StateMachine;
