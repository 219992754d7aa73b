//! A verified channel bank: the reassembly stage of a rollup derivation
//! pipeline. Frames extracted from base-layer transactions are buffered into
//! per-channel accumulators; completed channels are handed onward as whole
//! byte-streams, under a strict memory bound and a per-channel timeout.

pub mod bank;
pub mod channel;
pub mod index_map;
pub mod types;
