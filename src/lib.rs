//! An append-only, crash-consistent ledger store: length-framed records in
//! bounded segments, a hash chain over every entry, and Merkle checkpoints over
//! fixed windows of entries.
pub mod checkpoint_file;
pub mod digest;
pub mod frame;
pub mod naming;
pub mod proposal;
pub mod sequencer;
pub mod store;
