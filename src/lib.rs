//! A codec for the QOI ("Quite OK Image") lossless image format.
//!
//! The encoder turns a sequence of RGBA pixels into a stream of tagged chunks,
//! the decoder turns such a stream back into pixels. Both directions share the
//! pixel hash and the 64-slot pixel cache defined in [`pixel`].
use vstd::prelude::*;

pub mod buffers;
pub mod pixel;
pub mod chunk;
pub mod header;
pub mod decoder;
pub mod encoder;
pub mod codec;
pub mod helpers;

pub use pixel::RgbaPixel;
pub use chunk::Chunk;
pub use header::Header;
pub use decoder::{decode, DecodeError, ImageDecoder, PixelsToRgbaBytes, SliceReader};
pub use encoder::{Encoder, EncodeError, encode};
pub use helpers::{RgbaBytesAdapater, pixels_from_rgba_bytes};
pub use arrayvec::ArrayVec;
