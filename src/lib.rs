//! A static Huffman codec over bytes: frequency analysis, tree construction with a
//! fixed tie-break order, code tables, serialisation of the tree's shape, and
//! encoding and decoding of the payload.
pub mod bits;
pub mod codec;
pub mod laws;
pub mod table;
pub mod tree;

pub use bits::Codeword;
pub use codec::{huffman_decode, huffman_encode, FileData};
pub use tree::{HuffmanError, Node};
