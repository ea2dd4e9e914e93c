//! Decoder for the "qoif" lossless image format: a byte source, header
//! parsing, and the chunk state machine that rebuilds the pixel stream.

pub mod byte_stream;
pub mod chunk;
pub mod decode;
pub mod header;
pub mod hex;
pub mod lemmas;
pub mod pixel;
pub mod pixel_decoder;
pub mod pixel_index;

pub use decode::Decoder;
pub use header::Header;
pub use pixel::Pixel;
