//! Run several externally specified commands concurrently and multiplex their
//! output into one label-prefixed stream.
//!
//! This crate holds the verified core of that tool: parsing a flat argument
//! list into command specifications, rendering label-aligned output lines,
//! and aggregating per-command exit outcomes into a single process verdict.
//! Spawning child processes and moving bytes between their streams and the
//! console is left to a thin unverified driver around this library.

pub mod args;
pub mod outcome;
pub mod render;
pub mod strutil;
