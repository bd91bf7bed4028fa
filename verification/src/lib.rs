//! Per-prefix collision log: an append-only record log with an in-memory,
//! key-ordered index, rebuilt on open by replaying the log.

pub mod codec;
pub mod collision;
pub mod order;
pub mod replay;
pub mod scanner;
pub mod error;
pub mod index;
pub mod laws;
pub mod transaction;

pub use codec::LogEntry;
pub use collision::{Collision, CollisionLogIterator};
pub use index::IndexEntry;
pub use scanner::LogIterator;
pub use error::Error;
pub use transaction::Operation;
