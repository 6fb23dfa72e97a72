//! Parallel enumeration of every fixed-length string over a fixed alphabet.
//!
//! The library holds the verified engine: the index codec and odometer,
//! the combination space, the work partitioner and run plan, the worker
//! cursor that renders batches of lines, and the checkpoint tracker.
//! Threads, locks, files and progress display live around it.
pub mod codec;
pub mod space;
pub mod partition;
pub mod worker;
pub mod checkpoint;
pub mod text;
