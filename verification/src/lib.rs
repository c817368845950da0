//! Lossless text compression with static Huffman coding.

pub mod huffman;
