//! A user-space TCP-over-IPv4 engine.
//!
//! The crate implements the protocol core of a small TCP stack: sequence
//! arithmetic in Z/2^32, the per-connection state machine with segment
//! acceptance, acknowledgment processing, retransmission timing and the
//! send/receive byte queues, plus the tables that demultiplex inbound
//! segments by four-tuple. Wire parsing, serialization and the TCP checksum
//! are delegated to the `etherparse` header library; the TUN device, threads
//! and locks live with the embedding program.

pub mod err;
pub mod laws;
pub mod manager;
pub mod seqnum;
pub mod tcp;
pub mod timer;
pub mod wire;

pub use seqnum::{is_between_wrapping, wrapping_lt};
