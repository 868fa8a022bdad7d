//! In-memory DEFLATE compression and decompression with a ZLIB container.
//!
//! * Deflate/Inflate: [`deflate`]
//! * Zlib: [`zlib`]
//!
//! Every function is verified. What a stream of bytes stands for is defined in
//! [`stream`]; `inflate` returns exactly that, and `deflate` returns bytes
//! that stand for its input. No call panics, and none depends on what the
//! [`cache`] held before.
//!
//! From the bottom up: [`bits`] and the bit [`writer`] and [`reader`]; the
//! [`code`] symbols and the matcher in [`lzss`]; [`canonical`] Huffman codes,
//! their [`lengths`], and why they can be told apart in [`prefix`]; the
//! [`huffman`] encoder with the [`header`] of a dynamic block, and the table
//! [`decoder`]; the block driver in [`deflate`]; the container in [`zlib`]
//! with its [`adler32`] checksum. [`roundtrip`] holds the proof that
//! restoring undoes compressing.

pub mod adler32;
pub mod bits;
pub mod btype;
pub mod cache;
pub mod canonical;
pub mod code;
pub mod decoder;
pub mod deflate;
pub mod error;
pub mod header;
pub mod huffman;
pub mod lengths;
pub mod lzss;
pub mod prefix;
pub mod prelude;
pub mod reader;
pub mod roundtrip;
pub mod stream;
pub mod writer;
pub mod zlib;
