//! A static Huffman coder: a byte buffer is compressed into a self-describing
//! bit-packed buffer and restored from it.
pub mod bits;
pub mod error;
pub mod tree;
pub mod builder;
pub mod codec;
