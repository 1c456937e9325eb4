//! A verified model of a log-structured page store: the compare-and-swap
//! page table over an append-only segmented log, epoch-guarded space
//! reclamation, log-record framing with CRC-verified crash recovery, and
//! the create-or-open bootstrap protocol for named keyspaces.

pub mod constants;
pub mod epoch;
pub mod error;
pub mod logfmt;
pub mod node;
pub mod pagecache;
pub mod segment;
pub mod tree;
pub mod util;
