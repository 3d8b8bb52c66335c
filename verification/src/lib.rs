//! Static Huffman coding for a byte alphabet.
//!
//! The crate builds a prefix-free code from a frequency table and streams
//! bytes through that code into packed 64-bit words: a binary min-heap
//! drives tree construction, a tree walk assigns codewords, and a resumable
//! encoder merges variable-length codewords into whole output words across
//! any number of calls.

pub mod bits;
pub mod encode;
pub mod heap;
pub mod tree;
