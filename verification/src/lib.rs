//! Discrete-event simulation of photonic circuits: the packet pairing,
//! interaction bookkeeping, Monte Carlo collapse and time-tag merging that the
//! simulator threads run, each with a machine-checked contract.

pub mod collapser;
pub mod concurrency;
pub mod nodes;
pub mod parquet;
pub mod types;
pub mod util;
