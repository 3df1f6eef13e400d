//! Hides a text message in the least-significant bits of an image's
//! red, green and blue channels, and reads it back.
//!
//! The embedding format: three bits per pixel (one per colour channel, in
//! channel order), pixels in row-major order, each byte most-significant bit
//! first, and the message ended by a single zero byte.
pub mod bits;
pub mod stream;
pub mod scan;
pub mod canvas;
pub mod message;

pub use canvas::PixelBuffer;
pub use message::{read_message, write_message};
pub use stream::{BitSeq, BitSource, MessageCoder, MessageDecoder};
