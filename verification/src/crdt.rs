//! Conflict-free replicated data types and the state that is made of them.

pub mod convergence;
pub mod lww;
pub mod orset;
pub mod replicas;
pub mod sequence;
pub mod state;

pub use lww::LwwRegister;
pub use orset::OrSet;
pub use sequence::RgaSequence;
pub use state::{CrdtOp, CrdtState};
