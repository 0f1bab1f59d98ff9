//! A lossless text-compression core: the rotund rank transform, a Huffman
//! coder for the rank stream, and the text preprocessors that feed them.

pub mod annotate;
pub mod bits;
pub mod error;
pub mod huffman;
pub mod prep;
pub mod prob;
pub mod rle;
pub mod symbol;
pub mod words;
