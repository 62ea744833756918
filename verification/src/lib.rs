//! Highlighting of a byte stream by how compressible each run of bytes looks.
//!
//! The heart of the crate is [`window_searcher::WindowSearcher`], an
//! incremental matcher over a bounded window of history. It cuts a stream
//! into runs and tells, for each run, how long ago the same bytes were last
//! seen. Its behaviour is defined by the mathematical model in [`engine`];
//! [`stream`] states what holds of the model over whole streams.
//!
//! [`score`] turns the length and the age of a run into a score between
//! zero and one, [`palette`] turns a score into a colour, and [`lines`] and
//! [`paint`] prepare a run for writing. [`byte_queue`] is the queue through
//! which filtered input reaches the engine.

pub mod byte_queue;
pub mod engine;
pub mod lines;
pub mod paint;
pub mod palette;
pub mod score;
pub mod stream;
pub mod window_searcher;
