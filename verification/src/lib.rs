//! Mount-plan execution with per-mount-point fallback, and the command
//! vocabulary of the HymoFS kernel control channel.
//!
//! Everything here works on plain values: paths are UTF-8 strings, mount
//! outcomes are booleans, directory listings are vectors of entries. The
//! caller performs the mounts, the directory walks and the channel writes.

pub mod canon;
pub mod paths;
pub mod executor;
pub mod hymofs;
