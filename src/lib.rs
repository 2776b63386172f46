//! A tamper-evident hash chain over sensor-position records, and an
//! append-only anchor log for chain digests.
pub mod chain;
pub mod digest;
pub mod ledger;
