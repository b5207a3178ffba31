//! Dense vector storage core of a search segment.
//!
//! The crate owns a chunked, growable array of fixed-dimensional vectors,
//! a tombstone mask aligned with it, a stable byte codec for the records
//! that mirror every mutation into a durable key-value column, the load
//! path that reconstructs the storage from those records, and the
//! deletion-aware selection and top-k ordering used by scoring.
//! A small boolean filter evaluator over point ids accompanies it.
//!
//! Vector elements and scores travel through this crate as the 32-bit
//! patterns of the caller's floating-point values; the crate never
//! interprets them numerically, which keeps every stored bit exact.

pub mod chunked;
pub mod codec;
pub mod filter;
pub mod mask;
pub mod scored;
pub mod storage;
