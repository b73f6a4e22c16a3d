//! The byte-level specification of the wire format.
//!
//! Everything here is ghost: these functions are the single shared
//! description of the op-code bit layouts and their priority order that both
//! the encoder and the decoder are verified against. The stream is
//! `header_bytes ++ encode_ops ++ stream_tail`.

use vstd::prelude::*;
use crate::types::{
    ChanelMode, Colorspace, QoiDescriptor, QoiError, QoiRGBA, cache_slot, seed_pixel,
    fresh_cache, QOI_PIXELS_MAX,
};

verus! {

// ---------------------------------------------------------------------------
// Wraparound byte arithmetic
// ---------------------------------------------------------------------------

/// Addition of channel values modulo 256.
pub open spec fn byte_add(x: u8, y: u8) -> u8 {
    if x + y > 255 {
        (x + y - 256) as u8
    } else {
        (x + y) as u8
    }
}

/// Subtraction of channel values modulo 256.
pub open spec fn byte_sub(x: u8, y: u8) -> u8 {
    if x - y < 0 {
        (x - y + 256) as u8
    } else {
        (x - y) as u8
    }
}

/// A wrapped delta lies in [-2, 1] when read as a signed byte.
pub open spec fn near2(d: u8) -> bool {
    d <= 1 || d >= 254
}

/// A wrapped delta lies in [-32, 31] when read as a signed byte.
pub open spec fn luma_ok_g(d: u8) -> bool {
    d <= 31 || d >= 224
}

/// A wrapped delta lies in [-8, 7] when read as a signed byte.
pub open spec fn luma_ok_rb(d: u8) -> bool {
    d <= 7 || d >= 248
}

/// The 2-bit field `delta + 2` stored by a diff op; in [0, 3] when
/// `near2(d)` holds.
pub open spec fn diff_field(d: u8) -> int {
    if d >= 254 {
        d - 254
    } else {
        d + 2
    }
}

/// The 6-bit field `delta + 32` stored by a luma op; in [0, 63] when
/// `luma_ok_g(d)` holds.
pub open spec fn luma_field_g(d: u8) -> int {
    if d >= 224 {
        d - 224
    } else {
        d + 32
    }
}

/// The 4-bit field `delta + 8` stored by a luma op; in [0, 15] when
/// `luma_ok_rb(d)` holds.
pub open spec fn luma_field_rb(d: u8) -> int {
    if d >= 248 {
        d - 248
    } else {
        d + 8
    }
}

/// Inverse of [`diff_field`]: the wrapped delta `f - 2` for a field
/// `f` in [0, 3].
pub open spec fn delta_of_diff_field(f: int) -> u8 {
    if f >= 2 {
        (f - 2) as u8
    } else {
        (f + 254) as u8
    }
}

/// Inverse of [`luma_field_g`]: the wrapped delta `f - 32` for a field
/// `f` in [0, 63].
pub open spec fn delta_of_g_field(f: int) -> u8 {
    if f >= 32 {
        (f - 32) as u8
    } else {
        (f + 224) as u8
    }
}

/// Inverse of [`luma_field_rb`]: the wrapped delta `f - 8` for a field
/// `f` in [0, 15].
pub open spec fn delta_of_rb_field(f: int) -> u8 {
    if f >= 8 {
        (f - 8) as u8
    } else {
        (f + 248) as u8
    }
}

// ---------------------------------------------------------------------------
// Encoding: one op per pixel (runs aside)
// ---------------------------------------------------------------------------

/// The cache after a pixel has been processed by a non-run op: on a cache
/// hit the slot already holds the pixel, otherwise the slot is
/// unconditionally overwritten.
pub open spec fn cache_after(p: QoiRGBA, cache: Seq<QoiRGBA>) -> Seq<QoiRGBA> {
    if cache[cache_slot(p)] == p {
        cache
    } else {
        cache.update(cache_slot(p), p)
    }
}

/// The op emitted for one pixel `p` that differs from the previous pixel,
/// given the current cache. Priority is strict: cache hit, then diff, then
/// luma, then full RGB -- and a pixel whose alpha changed always takes the
/// full RGBA op.
pub open spec fn op_for(p: QoiRGBA, prev: QoiRGBA, cache: Seq<QoiRGBA>) -> Seq<u8> {
    if cache[cache_slot(p)] == p {
        seq![cache_slot(p) as u8]
    } else if p.a == prev.a {
        let dr = byte_sub(p.r, prev.r);
        let dg = byte_sub(p.g, prev.g);
        let db = byte_sub(p.b, prev.b);
        let dg_dr = byte_sub(dr, dg);
        let dg_db = byte_sub(db, dg);
        if near2(dr) && near2(dg) && near2(db) {
            seq![(64 + diff_field(dr) * 16 + diff_field(dg) * 4 + diff_field(db)) as u8]
        } else if luma_ok_rb(dg_dr) && luma_ok_rb(dg_db) && luma_ok_g(dg) {
            seq![
                (128 + luma_field_g(dg)) as u8,
                (luma_field_rb(dg_dr) * 16 + luma_field_rb(dg_db)) as u8,
            ]
        } else {
            seq![254u8, p.r, p.g, p.b]
        }
    } else {
        seq![255u8, p.r, p.g, p.b, p.a]
    }
}

/// How many consecutive pixels starting at `i` equal `p` (uncapped).
pub open spec fn eq_run(px: Seq<QoiRGBA>, i: int, p: QoiRGBA) -> int
    decreases px.len() - i,
{
    if i < 0 || i >= px.len() || px[i] != p {
        0
    } else {
        1 + eq_run(px, i + 1, p)
    }
}

/// A run never has negative length, and never reaches past the end of the
/// pixel sequence.
pub proof fn lemma_eq_run_bounds(px: Seq<QoiRGBA>, i: int, p: QoiRGBA)
    ensures
        0 <= eq_run(px, i, p),
        0 <= i <= px.len() ==> i + eq_run(px, i, p) <= px.len(),
    decreases px.len() - i,
{
    if !(i < 0 || i >= px.len() || px[i] != p) {
        lemma_eq_run_bounds(px, i + 1, p);
    }
}

/// Adding a wrapped difference back recovers the minuend.
pub proof fn lemma_byte_add_sub(x: u8, y: u8)
    ensures
        byte_add(y, byte_sub(x, y)) == x,
{
}

/// Every pixel within a run equals the run's pixel.
pub proof fn lemma_eq_run_members(px: Seq<QoiRGBA>, i: int, p: QoiRGBA)
    ensures
        forall|j: int| i <= j < i + eq_run(px, i, p) ==> px[j] == p,
    decreases px.len() - i,
{
    if !(i < 0 || i >= px.len() || px[i] != p) {
        lemma_eq_run_members(px, i + 1, p);
    }
}

/// If the `k` pixels from `i` on all equal `p`, the run at `i` is at least
/// `k` long.
pub proof fn lemma_eq_run_at_least(px: Seq<QoiRGBA>, i: int, p: QoiRGBA, k: int)
    requires
        0 <= i,
        0 <= k,
        i + k <= px.len(),
        forall|j: int| i <= j < i + k ==> px[j] == p,
    ensures
        eq_run(px, i, p) >= k,
    decreases k,
{
    if k > 0 {
        assert(px[i] == p);
        lemma_eq_run_at_least(px, i + 1, p, k - 1);
    } else {
        lemma_eq_run_bounds(px, i, p);
    }
}

/// If the `k` pixels from `i` on all equal `p` and the run then stops --
/// either the sequence ends or the next pixel differs -- the run at `i` is
/// exactly `k` long.
pub proof fn lemma_eq_run_exact(px: Seq<QoiRGBA>, i: int, p: QoiRGBA, k: int)
    requires
        0 <= i,
        0 <= k,
        i + k <= px.len(),
        forall|j: int| i <= j < i + k ==> px[j] == p,
        i + k == px.len() || px[i + k] != p,
    ensures
        eq_run(px, i, p) == k,
    decreases k,
{
    if k == 0 {
    } else {
        lemma_eq_run_exact(px, i + 1, p, k - 1);
    }
}

/// The length of the run op emitted at position `i`: the number of
/// consecutive equal pixels, capped at the maximum representable run of 62.
pub open spec fn run_take(px: Seq<QoiRGBA>, i: int, p: QoiRGBA) -> int {
    if eq_run(px, i, p) >= 62 {
        62
    } else {
        eq_run(px, i, p)
    }
}

/// The op-code stream for the pixels from position `i` on, starting from
/// running state `prev` / `cache`.
pub open spec fn encode_ops(px: Seq<QoiRGBA>, i: int, prev: QoiRGBA, cache: Seq<QoiRGBA>) -> Seq<u8>
    decreases px.len() - i,
    via encode_ops_decreases
{
    if i < 0 || i >= px.len() {
        Seq::empty()
    } else if px[i] == prev {
        let rl = run_take(px, i, prev);
        seq![(192 + rl - 1) as u8] + encode_ops(px, i + rl, prev, cache)
    } else {
        op_for(px[i], prev, cache)
            + encode_ops(px, i + 1, px[i], cache_after(px[i], cache))
    }
}

#[via_fn]
proof fn encode_ops_decreases(px: Seq<QoiRGBA>, i: int, prev: QoiRGBA, cache: Seq<QoiRGBA>) {
    if 0 <= i && i < px.len() && px[i] == prev {
        reveal_with_fuel(eq_run, 2);
        assert(eq_run(px, i, prev) == 1 + eq_run(px, i + 1, prev));
        lemma_eq_run_bounds(px, i, prev);
        lemma_eq_run_bounds(px, i + 1, prev);
    }
}

/// Unfolding of [`encode_ops`] at a run: if the `rl` pixels from `i` on all
/// equal `prev` and the run is either full (62) or stopped by the end of the
/// buffer or a differing pixel, the stream continues with one run byte.
pub proof fn lemma_encode_run_step(
    px: Seq<QoiRGBA>,
    i: int,
    prev: QoiRGBA,
    cache: Seq<QoiRGBA>,
    rl: int,
)
    requires
        0 <= i,
        1 <= rl <= 62,
        i + rl <= px.len(),
        forall|j: int| i <= j < i + rl ==> px[j] == prev,
        rl == 62 || i + rl == px.len() || px[i + rl] != prev,
    ensures
        encode_ops(px, i, prev, cache) == seq![(192 + rl - 1) as u8] + encode_ops(
            px,
            i + rl,
            prev,
            cache,
        ),
{
    if rl == 62 {
        lemma_eq_run_at_least(px, i, prev, 62);
    } else {
        lemma_eq_run_exact(px, i, prev, rl);
    }
    assert(px[i] == prev);
    assert(run_take(px, i, prev) == rl);
}

/// Unfolding of [`encode_ops`] at a pixel that does not extend a run: the
/// stream continues with that pixel's op, and the cache is updated.
pub proof fn lemma_encode_op_step(px: Seq<QoiRGBA>, i: int, prev: QoiRGBA, cache: Seq<QoiRGBA>)
    requires
        0 <= i < px.len(),
        px[i] != prev,
    ensures
        encode_ops(px, i, prev, cache) == op_for(px[i], prev, cache) + encode_ops(
            px,
            i + 1,
            px[i],
            cache_after(px[i], cache),
        ),
{
}

// ---------------------------------------------------------------------------
// Header, padding, whole-stream encoding
// ---------------------------------------------------------------------------

/// The four magic bytes `"qoif"`.
pub open spec fn magic_bytes() -> Seq<u8> {
    seq![113u8, 111u8, 105u8, 102u8]
}

/// A 32-bit value as four big-endian bytes.
pub open spec fn be32_bytes(v: int) -> Seq<u8> {
    seq![
        ((v / 0x1000000) % 256) as u8,
        ((v / 0x10000) % 256) as u8,
        ((v / 0x100) % 256) as u8,
        (v % 256) as u8,
    ]
}

/// The 32-bit value stored big-endian at offset `j`.
pub open spec fn be32_val(bytes: Seq<u8>, j: int) -> int {
    bytes[j] * 0x1000000 + bytes[j + 1] * 0x10000 + bytes[j + 2] * 0x100 + bytes[j + 3]
}

/// The 14-byte fixed header.
pub open spec fn header_bytes(desc: QoiDescriptor) -> Seq<u8> {
    magic_bytes() + be32_bytes(desc.width as int) + be32_bytes(desc.height as int)
        + seq![desc.channels.count() as u8, desc.colorspace.tag() as u8]
}

/// The 8-byte end-of-stream padding.
pub open spec fn stream_tail() -> Seq<u8> {
    seq![0u8, 0u8, 0u8, 0u8, 0u8, 0u8, 0u8, 1u8]
}

/// The pixel `i` of a flat byte buffer, lifted to canonical RGBA form.
pub open spec fn pixel_at(data: Seq<u8>, ch: ChanelMode, i: int) -> QoiRGBA {
    match ch {
        ChanelMode::Rgb => QoiRGBA {
            r: data[3 * i],
            g: data[3 * i + 1],
            b: data[3 * i + 2],
            a: 255,
        },
        ChanelMode::Rgba => QoiRGBA {
            r: data[4 * i],
            g: data[4 * i + 1],
            b: data[4 * i + 2],
            a: data[4 * i + 3],
        },
    }
}

/// All pixels of a flat byte buffer in row-major order.
pub open spec fn pixels_of(data: Seq<u8>, ch: ChanelMode) -> Seq<QoiRGBA> {
    Seq::new((data.len() as int / ch.count()) as nat, |i: int| pixel_at(data, ch, i))
}

/// The bytes one pixel contributes to a flat buffer.
pub open spec fn pixel_bytes(p: QoiRGBA, ch: ChanelMode) -> Seq<u8> {
    match ch {
        ChanelMode::Rgb => seq![p.r, p.g, p.b],
        ChanelMode::Rgba => seq![p.r, p.g, p.b, p.a],
    }
}

/// A pixel sequence flattened back into a byte buffer.
pub open spec fn bytes_of(px: Seq<QoiRGBA>, ch: ChanelMode) -> Seq<u8>
    decreases px.len(),
{
    if px.len() == 0 {
        Seq::empty()
    } else {
        bytes_of(px.drop_last(), ch) + pixel_bytes(px.last(), ch)
    }
}

/// Flattening one more pixel appends its bytes.
pub proof fn lemma_bytes_of_push(px: Seq<QoiRGBA>, p: QoiRGBA, ch: ChanelMode)
    ensures
        bytes_of(px.push(p), ch) == bytes_of(px, ch) + pixel_bytes(p, ch),
{
    assert(px.push(p).drop_last() =~= px);
    assert(px.push(p).last() == p);
}

/// What `qoi_encode` returns, for every input the codec accepts or rejects.
pub open spec fn encode_result(data: Seq<u8>, desc: QoiDescriptor) -> Result<Seq<u8>, QoiError> {
    if desc.width == 0 || desc.height == 0 {
        Err(QoiError::ZeroDimension)
    } else if desc.width * desc.height >= QOI_PIXELS_MAX {
        Err(QoiError::TooManyPixels)
    } else {
        Ok(
            header_bytes(desc)
                + encode_ops(pixels_of(data, desc.channels), 0, seed_pixel(), fresh_cache())
                + stream_tail(),
        )
    }
}

// ---------------------------------------------------------------------------
// Decoding
// ---------------------------------------------------------------------------

/// The pixel reconstructed by a diff op byte `b0` (in [64, 127]).
pub open spec fn diff_pixel(prev: QoiRGBA, b0: u8) -> QoiRGBA {
    let x = b0 - 64;
    QoiRGBA {
        r: byte_add(prev.r, delta_of_diff_field(x / 16)),
        g: byte_add(prev.g, delta_of_diff_field((x / 4) % 4)),
        b: byte_add(prev.b, delta_of_diff_field(x % 4)),
        a: prev.a,
    }
}

/// The wrapped green delta carried by a luma op byte `b0` (in [128, 191]).
pub open spec fn luma_dg(b0: u8) -> u8 {
    delta_of_g_field(b0 - 128)
}

/// The pixel reconstructed by a luma op (bytes `b0` in [128, 191], `b1`).
pub open spec fn luma_pixel(prev: QoiRGBA, b0: u8, b1: u8) -> QoiRGBA {
    let dg = luma_dg(b0);
    let dr = byte_add(dg, delta_of_rb_field(b1 as int / 16));
    let db = byte_add(dg, delta_of_rb_field(b1 as int % 16));
    QoiRGBA {
        r: byte_add(prev.r, dr),
        g: byte_add(prev.g, dg),
        b: byte_add(prev.b, db),
        a: prev.a,
    }
}

/// Decode `n` pixel slots from the front of `bytes`, starting from running
/// state `prev` / `cache`. `None` means the stream ended before all
/// required bytes were read.
pub open spec fn decode_ops(bytes: Seq<u8>, n: nat, prev: QoiRGBA, cache: Seq<QoiRGBA>) -> Option<
    Seq<QoiRGBA>,
>
    decreases n,
{
    if n == 0 {
        Some(Seq::empty())
    } else if bytes.len() < 1 {
        None
    } else {
        let b0 = bytes[0];
        if b0 == 254 {
            if bytes.len() < 4 {
                None
            } else {
                let p = QoiRGBA { r: bytes[1], g: bytes[2], b: bytes[3], a: prev.a };
                match decode_ops(bytes.skip(4), (n - 1) as nat, p, cache_after(p, cache)) {
                    None => None,
                    Some(s) => Some(seq![p] + s),
                }
            }
        } else if b0 == 255 {
            if bytes.len() < 5 {
                None
            } else {
                let p = QoiRGBA { r: bytes[1], g: bytes[2], b: bytes[3], a: bytes[4] };
                match decode_ops(bytes.skip(5), (n - 1) as nat, p, cache_after(p, cache)) {
                    None => None,
                    Some(s) => Some(seq![p] + s),
                }
            }
        } else if b0 < 64 {
            let p = cache[b0 as int];
            match decode_ops(bytes.skip(1), (n - 1) as nat, p, cache) {
                None => None,
                Some(s) => Some(seq![p] + s),
            }
        } else if b0 < 128 {
            let p = diff_pixel(prev, b0);
            match decode_ops(bytes.skip(1), (n - 1) as nat, p, cache_after(p, cache)) {
                None => None,
                Some(s) => Some(seq![p] + s),
            }
        } else if b0 < 192 {
            if bytes.len() < 2 {
                None
            } else {
                let p = luma_pixel(prev, b0, bytes[1]);
                match decode_ops(bytes.skip(2), (n - 1) as nat, p, cache_after(p, cache)) {
                    None => None,
                    Some(s) => Some(seq![p] + s),
                }
            }
        } else {
            let c0 = b0 - 192 + 1;
            let m = if c0 <= n { c0 as int } else { n as int };
            match decode_ops(bytes.skip(1), (n - m) as nat, prev, cache) {
                None => None,
                Some(s) => Some(Seq::new(m as nat, |i: int| prev) + s),
            }
        }
    }
}

/// The rest of a decode in flight: `done` pixels are already out, `run`
/// more copies of `prev` are owed by the run op last read, `rem` pixel
/// slots are still to fill, and `bytes` is the unread part of the stream.
pub open spec fn decode_tail(
    bytes: Seq<u8>,
    done: Seq<QoiRGBA>,
    run: int,
    rem: nat,
    prev: QoiRGBA,
    cache: Seq<QoiRGBA>,
) -> Option<Seq<QoiRGBA>> {
    if run >= rem {
        Some(done + Seq::new(rem, |i: int| prev))
    } else {
        match decode_ops(bytes, (rem - run) as nat, prev, cache) {
            None => None,
            Some(s) => Some(done + Seq::new(run as nat, |i: int| prev) + s),
        }
    }
}

/// What `qoi_decode` returns, for every byte stream and forced channel
/// mode: either the flat pixel buffer with the recovered descriptor, or
/// the error the stream deserves.
pub open spec fn decode_result(bytes: Seq<u8>, forced: Option<ChanelMode>) -> Result<
    (Seq<u8>, QoiDescriptor),
    QoiError,
> {
    if bytes.len() < 4 {
        Err(QoiError::UnexpectedEnd)
    } else if bytes.subrange(0, 4) != magic_bytes() {
        Err(QoiError::BadMagic)
    } else if bytes.len() < 14 {
        Err(QoiError::UnexpectedEnd)
    } else if forced is None && bytes[12] != 3 && bytes[12] != 4 {
        Err(QoiError::BadChannelCount)
    } else if bytes[13] != 0 && bytes[13] != 1 {
        Err(QoiError::BadColorspace)
    } else {
        let w = be32_val(bytes, 4);
        let h = be32_val(bytes, 8);
        let ch = match forced {
            Some(c) => c,
            None => if bytes[12] == 3 {
                ChanelMode::Rgb
            } else {
                ChanelMode::Rgba
            },
        };
        let cs = if bytes[13] == 0 {
            Colorspace::Srgb
        } else {
            Colorspace::Linear
        };
        if w == 0 || h == 0 {
            Err(QoiError::ZeroDimension)
        } else if w * h >= QOI_PIXELS_MAX {
            Err(QoiError::TooManyPixels)
        } else {
            match decode_ops(bytes.skip(14), (w * h) as nat, seed_pixel(), fresh_cache()) {
                None => Err(QoiError::UnexpectedEnd),
                Some(px) => Ok(
                    (
                        bytes_of(px, ch),
                        QoiDescriptor {
                            width: w as usize,
                            height: h as usize,
                            channels: ch,
                            colorspace: cs,
                        },
                    ),
                ),
            }
        }
    }
}

} // verus!
