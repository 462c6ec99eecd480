pub mod bit_string;
pub mod canonical;
pub mod crc;
pub mod huffman;
