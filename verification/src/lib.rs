//! A FIFO byte buffer: a queue of binary chunks supporting writes of whole
//! chunks, reads of an arbitrary requested size that split chunks as needed,
//! and an explicit end-of-stream marker.

pub mod buffer;
pub mod error;
pub mod laws;

pub use buffer::Buffer;
pub use error::Error;
