//! Building blocks shared by the parsers.

pub mod bitfield;
pub mod byte_queue;
pub mod cursor;
pub mod text;
