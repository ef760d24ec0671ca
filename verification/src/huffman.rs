//! Huffman compression core: bit streams, the character spectrum, the code
//! tree with its prefix-code tables, headers and the compression pipeline.

pub mod algorithm;
pub mod bitstream;
pub mod command;
pub mod steps;
pub mod types;
