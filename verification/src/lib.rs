//! Encoding half of a Zstandard codec: compression levels, the canonical
//! Huffman table builder, and the frame encoder, with machine-checked
//! contracts.

pub mod bits;
mod coding;
pub mod decode;
mod distribution;
pub mod format;
pub mod frame;
pub mod level;
mod prefix;
mod repayment;
pub mod table;
pub mod weights;
