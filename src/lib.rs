//! A non-blocking connection multiplexing core: a per-connection state machine
//! (read a request up to its blank-line delimiter, write a fixed response,
//! flush) and a connection table driven by a busy-polled event loop.
pub mod connection;
pub mod response;
pub mod table;
