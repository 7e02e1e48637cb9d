//! A segmented, append-only write-ahead log: a durable sequence of opaque byte
//! records split across fixed-capacity segments, with crash-safe recovery and a
//! persisted read cursor.
//!
//! The core works on in-memory images of the segment files; positional file
//! I/O is left to the surrounding program, which hands images in and writes
//! them back out.

pub mod buf;
pub mod codec;
pub mod config;
pub mod cursor;
pub mod errors;
pub mod overhead;
pub mod segment;
pub mod wal;
