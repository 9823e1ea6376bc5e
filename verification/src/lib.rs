//! Huffman coding over bytes, built on a binary-heap priority queue.
//!
//! [`heap`] holds the queue, [`huffman`] compression and decompression; the
//! modules between them build the tree, derive the codes and move the bits.
//! The modules `heap_spec`, `tree`, `forest` and `sums` hold the
//! mathematical models, and `heap_laws`, `optimal` and `bound` the theorems
//! that are proved of them.

pub mod bits;
pub mod bound;
pub mod builder;
pub mod codec;
pub mod codes;
pub mod config;
pub mod container;
pub mod descriptor;
pub mod forest;
pub mod freq;
pub mod heap;
pub mod heap_laws;
pub mod heap_spec;
pub mod huffman;
pub mod node;
pub mod optimal;
pub mod order;
pub mod sums;
pub mod tree;
