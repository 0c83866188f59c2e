//! Lossless text compression with Huffman codes.
//!
//! [`encode`] turns a text into a self-describing byte buffer that holds the
//! table of symbol counts, the length of the coded message in bits and the
//! message itself, packed eight bits to a byte. [`decode`] rebuilds the same
//! code from the stored table and recovers the text.
pub mod binary_tree;
pub mod error;
pub mod symbol_map;
pub mod huffman;
pub mod varint;
pub mod symbol;
pub mod bits;
pub mod encode;
pub mod decode;
pub mod round_trip;
pub mod code_length;

pub use decode::decode;
pub use encode::encode;
