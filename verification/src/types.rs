//! The data model shared by the encoder and the decoder: pixels, image
//! descriptors, the color cache geometry, and the error type.

use vstd::prelude::*;

verus! {

/// Number of slots in the color cache.
pub const QOI_CACHE_SIZE: usize = 64;

/// Maximum safe pixel count: `width * height` must stay below this bound so
/// that all downstream size arithmetic fits comfortably in machine integers.
pub const QOI_PIXELS_MAX: usize = 400_000_000;

/// Size of the fixed stream header in bytes.
pub const QOI_HEADER_SIZE: usize = 14;

/// A single RGBA pixel, the canonical in-memory form for both channel modes.
/// A 3-channel (RGB) buffer is lifted to this form with alpha 255.
#[derive(Clone, Copy, PartialEq, Eq, Structural, Debug)]
pub struct QoiRGBA {
    pub r: u8,
    pub g: u8,
    pub b: u8,
    pub a: u8,
}

impl QoiRGBA {
    /// Create a new RGBA pixel from individual channel values.
    pub fn new(r: u8, g: u8, b: u8, a: u8) -> (p: Self)
        ensures
            p == (QoiRGBA { r, g, b, a }),
    {
        Self { r, g, b, a }
    }
}

/// RGBA or RGB mode: how many bytes of the buffer make up one pixel.
#[derive(Clone, Copy, PartialEq, Eq, Structural, Debug)]
pub enum ChanelMode {
    Rgb,
    Rgba,
}

impl ChanelMode {
    /// Number of bytes per pixel in this mode: 3 for RGB, 4 for RGBA.
    pub open spec fn count(self) -> int {
        match self {
            ChanelMode::Rgb => 3,
            ChanelMode::Rgba => 4,
        }
    }

    /// Executable form of [`Self::count`].
    pub fn channel_count(&self) -> (n: usize)
        ensures
            n == self.count(),
    {
        match self {
            ChanelMode::Rgb => 3,
            ChanelMode::Rgba => 4,
        }
    }
}

/// Colorspace tag stored in the header. It does not affect the encoding
/// math; the codec carries it through unchanged.
#[derive(Clone, Copy, PartialEq, Eq, Structural, Debug)]
pub enum Colorspace {
    Srgb,
    Linear,
}

impl Colorspace {
    /// The byte stored in the header for this tag: 0 for sRGB, 1 for linear.
    pub open spec fn tag(self) -> int {
        match self {
            Colorspace::Srgb => 0,
            Colorspace::Linear => 1,
        }
    }

    /// Executable form of [`Self::tag`].
    pub fn tag_byte(&self) -> (t: u8)
        ensures
            t == self.tag(),
    {
        match self {
            Colorspace::Srgb => 0,
            Colorspace::Linear => 1,
        }
    }
}

/// Describes a pixel buffer: its dimensions, channel mode and colorspace.
#[derive(Clone, PartialEq, Eq, Structural, Debug)]
pub struct QoiDescriptor {
    pub width: usize,
    pub height: usize,
    pub channels: ChanelMode,
    pub colorspace: Colorspace,
}

impl QoiDescriptor {
    /// A descriptor is accepted by the codec when both dimensions are
    /// nonzero and the pixel count stays below [`QOI_PIXELS_MAX`].
    pub open spec fn valid_dims(self) -> bool {
        &&& self.width > 0
        &&& self.height > 0
        &&& self.width * self.height < QOI_PIXELS_MAX
    }
}

/// Everything that can go wrong while encoding or decoding.
///
/// `ZeroDimension` and `TooManyPixels` are validation errors (the caller can
/// correct the input before calling); `BadMagic`, `BadChannelCount` and
/// `BadColorspace` signal a malformed or foreign byte stream; and
/// `UnexpectedEnd` signals a byte source that ran dry before the stream was
/// complete.
#[derive(Clone, Copy, PartialEq, Eq, Structural, Debug)]
pub enum QoiError {
    ZeroDimension,
    TooManyPixels,
    BadMagic,
    BadChannelCount,
    BadColorspace,
    UnexpectedEnd,
}

/// Raw hash of a pixel, before reduction modulo the cache size.
pub open spec fn color_hash_raw(p: QoiRGBA) -> int {
    p.r * 3 + p.g * 5 + p.b * 7 + p.a * 11
}

/// The cache slot a pixel maps to: its hash modulo the cache size.
pub open spec fn cache_slot(p: QoiRGBA) -> int {
    color_hash_raw(p) % 64
}

/// Hash of an RGBA pixel. The caller reduces it modulo the cache size to
/// obtain the pixel's slot.
pub fn color_hash(pixel: QoiRGBA) -> (h: usize)
    ensures
        h == color_hash_raw(pixel),
        h <= 6630,
{
    pixel.r as usize * 3 + pixel.g as usize * 5 + pixel.b as usize * 7 + pixel.a as usize * 11
}

/// The pixel the running previous-pixel state is seeded with.
pub open spec fn seed_pixel() -> QoiRGBA {
    QoiRGBA { r: 0, g: 0, b: 0, a: 255 }
}

/// The all-zero pixel every cache slot starts out as.
pub open spec fn blank_pixel() -> QoiRGBA {
    QoiRGBA { r: 0, g: 0, b: 0, a: 0 }
}

/// The initial contents of the color cache: 64 blank pixels.
pub open spec fn fresh_cache() -> Seq<QoiRGBA> {
    Seq::new(64, |i: int| blank_pixel())
}

} // verus!
