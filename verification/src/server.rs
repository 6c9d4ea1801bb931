//! What a server does for its clients and for the other nodes of the cluster.

pub mod client_service;
pub mod dispatch;
pub mod peers;
pub mod raft_service;
pub mod status;

pub use status::Status;
