//! Lossless block codecs for time series of sensor readings.
//!
//! A block is one byte of tag followed by a big-endian bit stream. Every codec here writes its
//! blocks so that [`codec::decode`] gives back exactly the points that went in, bit for bit.

pub mod binary64;
pub mod bits;
pub mod bitseq;
pub mod codec;
pub mod error;
pub mod laws;
pub mod point;

pub use crate::error::Error;
pub use crate::point::Point;
