//! The items that most callers need.

pub use crate::btype::BlockType;
pub use crate::cache::Cache;
pub use crate::deflate::{deflate, inflate, inflate_to};
pub use crate::error::Error;
pub use crate::zlib::{zlib_decode, zlib_decode_to, zlib_encode};
