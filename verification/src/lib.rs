//! The verified core of a block-multiplexing download client.
//!
//! Pieces of a file are split into blocks; every block may be fetched over several streams at
//! once; a piece is accepted when the root over its block hashes is the expected one. The library
//! decides what to fetch, what to announce and whom to trust. Sockets, disks and timers are the
//! business of whoever drives it.

pub mod context;
pub mod drainer;
pub mod meta;
pub mod scheduler;
pub mod select;
pub mod state;
pub mod tofu;
pub mod transport;
pub mod verify;
pub mod wire;
