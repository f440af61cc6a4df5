//! Fan-out and round-robin copying of byte streams.
//!
//! [`MultiWriter`] sends every write to each of its sinks in turn;
//! [`RoundRobinCopier`] hands each whole copy to one sink of a pool, taking
//! the sinks in turn. Both work over the [`Sink`] and [`Source`] traits.
pub mod multiwriters;
pub mod round_robin_copiers;
pub mod stream;

pub use multiwriters::{copy_into_many, MultiWriter};
pub use round_robin_copiers::RoundRobinCopier;
pub use stream::{copy, next_offset, write_all, IoError, Sink, Source, CHUNK_SIZE};
