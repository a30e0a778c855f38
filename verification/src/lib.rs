//! # Pipe Logger
//!
//! Stores, rotates, compresses process logs.
//!
//! The crate holds the rotation engine: it tracks how many bytes were
//! written to the live log file, decides when the file must be rotated,
//! derives the timestamped archive names, reconstructs the archive history
//! from a directory listing, and enforces a retention quota. All file,
//! terminal and clock access stays with the caller, which hands the engine
//! plain values (byte counts, file names, calendar timestamps) and carries
//! out the actions the engine decides on.

pub mod builder;
pub mod cli;
pub mod engine;
pub mod history;
pub mod naming;
pub mod timestamp;
