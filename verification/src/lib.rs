//! A bit-addressable byte buffer: insert and retrieve unsigned integers at
//! arbitrary, non-byte-aligned bit ranges, and combine or shift whole buffers.

pub mod bitfield;
pub mod laws;
pub mod model;
