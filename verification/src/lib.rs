//! An in-memory key-value store speaking a Redis-style wire protocol.
//!
//! The crate is organised around four pieces: the wire-protocol codec
//! ([`frame`]), the typed key-value store with expiration and a pub/sub
//! registry ([`db`]), the append-only command log ([`aof`]), and the binary
//! snapshot format ([`rdb`]).  Command handlers live under the `cmd_*`
//! modules; they validate arguments and drive the store.
//!
//! All time-dependent operations take the current wall-clock time in
//! milliseconds as an explicit argument, so the whole engine is a pure
//! function of its inputs; the binary around it supplies the clock and
//! performs the socket and file I/O.

pub mod frame;
pub mod frame_laws;
pub mod parse;
pub mod aof;
pub mod db;
pub mod rdb;
pub mod cmd_misc;
pub mod cmd_string;
pub mod cmd_hash;
pub mod cmd_list;
pub mod cmd_pubsub;
pub mod config;
