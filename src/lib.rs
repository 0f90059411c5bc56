pub mod bits;
pub mod huffman;
pub mod info;
pub mod protocol;
pub mod tree;
