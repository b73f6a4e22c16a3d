//! A verified lossless image codec for the QOI ("Quite OK Image") format.
//!
//! The library converts a flat buffer of RGB or RGBA pixel bytes into a
//! compact byte stream ([`qoi_encode`]) and reconstructs the original pixel
//! buffer from such a stream ([`qoi_decode`]), with a proved bit-exact
//! round trip.

use vstd::prelude::*;

pub mod decode;
pub mod encode;
pub mod laws;
pub mod stream;
pub mod types;

verus! {

pub use decode::qoi_decode;
pub use encode::qoi_encode;
pub use types::ChanelMode;
pub use types::Colorspace;
pub use types::QoiDescriptor;
pub use types::QoiError;
pub use types::QoiRGBA;
pub use types::color_hash;

} // verus!
