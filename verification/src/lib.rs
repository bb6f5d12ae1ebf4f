//! A crash-recoverable sweep pipeline for spendable on-chain output
//! descriptors: an intake keyspace receives descriptor batches under random
//! hexadecimal keys, a consolidation step atomically relocates them through a
//! staging keyspace into a claim queue, and a sweep step decodes each claim
//! batch back into descriptors and decides which spend transactions to
//! broadcast.

pub mod bytes;
pub mod codec;
pub mod conserve;
pub mod descriptor;
pub mod errors;
pub mod keys;
pub mod pipeline;
pub mod scheduler;
pub mod store;
pub mod sweep;
