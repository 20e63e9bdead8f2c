//! Host-side logic of a mouse camera: USB report framing for the mouse
//! microcontroller and decoding of the compressed 30x30 sensor frames.
pub mod bits;
pub mod huffman;
pub mod format;
pub mod decoder;
pub mod report;
pub mod connect;
pub mod display;
pub mod table_text;
