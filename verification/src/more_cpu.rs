//! The engine that plans its asks: announced operations are collected in a
//! wishlist, and a timer turns the wishlist into asks, at most
//! `max_batch_size` operations per peer.
//!
//! The asks of peers are collected as well, per peer, and a second timer
//! answers them, at most `max_batch_size` operations per peer and round.
pub mod algo;
pub mod laws;
pub mod model;
pub mod types;

pub use algo::on_ask_received;
pub use algo::on_asking_loop;
pub use algo::on_batch_received;
pub use algo::on_operation_received;
pub use algo::on_send_operation_loop;
pub use types::AskedOperations;
pub use types::FakeProtocol;
pub use types::NodeId;
pub use types::NodeInfo;
pub use types::Operation;
pub use types::OperationId;
pub use types::OperationIds;
pub use types::OperationMap;
pub use types::WantOperations;
