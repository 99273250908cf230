pub mod block_decoder;
pub mod block_encoder;
pub mod bwt;
pub mod code_table;
pub mod crc32;
pub mod delta;
pub mod huffman;
pub mod mtf;
pub mod rle;
pub mod selectors;
pub mod sorting;
pub mod symbol_map;
pub mod symbol_statistics;
pub mod zle;
