//! A verified decoder and applicator for the IPS binary patch format.
//!
//! An IPS patch is a byte stream: the ASCII magic `PATCH`, a run of
//! records (each either a literal byte payload or a run-length fill),
//! and the ASCII terminator `EOF`. [`ips::Patch::parse`] decodes such a
//! stream into records, [`ips::Patch::apply`] replays the records over
//! a byte buffer, growing it with zero fill where a record writes past
//! the end, and [`ips::Patch::encode`] writes records back to bytes.

pub mod error;
pub mod ips;
pub mod model;
