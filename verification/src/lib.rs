//! Boot-time disk mounting helper.
//!
//! The crate parses a small line-oriented configuration mapping filesystem
//! identifiers to mount paths, parses the output of a device-listing command
//! into (device name, identifier) records, resolves each configured
//! identifier to a device name, and decides how a run of mount attempts
//! proceeds under a boot-safe force policy. Reading the configuration file
//! and launching the listing and mount commands are left to the caller; the
//! library works on the text and values they hand it.

pub mod engine;
pub mod model;
pub mod text;
