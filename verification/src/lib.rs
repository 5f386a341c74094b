//! Core of a single-threaded TCP broadcast server: length-prefixed framing,
//! a bounded slot-indexed connection table, per-connection read/write state,
//! and the event-dispatch rules that tie them together.  All I/O is performed
//! by the embedding program, which feeds bytes and readiness events in and
//! carries the resulting actions out.

pub mod connection;
pub mod frame;
pub mod server;
pub mod table;

pub use connection::{Connection, Message, MAX_PAYLOAD_LEN};
pub use frame::FrameError;
pub use server::{EventPlan, Server, LISTENER_TOKEN};
pub use table::ConnTable;
