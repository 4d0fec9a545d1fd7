//! Operation propagation for a peer-to-peer broadcast node.
//!
//! A node learns which operations its peers hold, announces operations to
//! peers that do not know them yet, asks peers for operations it misses and
//! answers the asks of others. Two engines implement this with different
//! trade-offs: [`less_cpu`] asks as soon as an announcement arrives and
//! defers re-asks behind a cooling window, [`more_cpu`] collects a wishlist
//! and plans bounded asks per peer on a timer.
//!
//! Neither engine performs I/O or reads a clock. The caller passes the
//! current time in, and every message the engine wants sent is appended to
//! a queue that the engine owns and the caller drains.
//!
//! Each engine comes with a model: its state as mathematical values and a
//! function from state and event to the next state. The contract of every
//! handler says that the engine moves as the model does, and the laws of
//! each engine are proved of the model.
//!
//! Sets and maps are walked in ascending order of identifier, so what an
//! engine does is a function of its state and the event alone.
pub mod ascending;
pub mod clock;
pub mod ids;
pub mod less_cpu;
pub mod measurements;
pub mod more_cpu;
pub mod registry;
