//! A bounded, multi-stage processing pipeline with a feedback path, and the
//! data structures and codecs around it, verified with Verus.
//!
//! The pipeline: records flow from a producer through ingestion,
//! transformation and collection over bounded channels; transformation sends
//! some records back to ingestion. `pipeline` holds a stepwise model of a run
//! with proofs that nothing is lost or corrupted and that interleaved
//! ingestion cannot deadlock.

pub mod arith;
pub mod cache;
pub mod channel;
pub mod format;
pub mod graph;
pub mod heap;
pub mod lru;
pub mod parser;
pub mod pipeline;
pub mod priority_queue;
pub mod record;
pub mod shortest_path;
pub mod stage;
pub mod text;
pub mod varint;
