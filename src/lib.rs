//! Finds the first token of a text that occurs exactly once, with a pipeline
//! built for inputs larger than memory: a chunked reader that keeps absolute
//! offsets, a hash partitioner into bounded buckets, a per-bucket reducer and
//! a global aggregator.
pub mod model;
pub mod chunk;
pub mod count;
pub mod merge;
pub mod partition;
pub mod pipeline;
pub mod record;
pub mod utils;
