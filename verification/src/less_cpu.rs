//! The engine that asks early: an announced operation is asked for at once,
//! from the peer that announced it, unless it was asked for a moment ago.
//!
//! An operation that was asked for is in its cooling window for
//! `op_batch_proc_period` milliseconds. An announcement of it that arrives
//! from another peer in that time is put aside in a bounded buffer and looked
//! at again once the window has passed.
pub mod algo;
pub mod laws;
pub mod model;
pub mod types;

pub use algo::on_ask_received;
pub use algo::on_batch_received;
pub use algo::on_operation_received;
pub use algo::on_prune_asked_lifetime_loop;
pub use algo::on_send_loop;
pub use types::FakeProtocol;
pub use types::NodeId;
pub use types::NodeInfo;
pub use types::Operation;
pub use types::OperationId;
pub use types::OperationIds;
pub use types::OperationMap;
pub use types::Timestamp;
pub use types::WantOperations;
