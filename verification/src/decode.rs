//! The decoder: a QOI byte stream back to raw RGB or RGBA pixels.

use vstd::prelude::*;
use vstd::arithmetic::div_mod::{lemma_fundamental_div_mod, lemma_mod_bound};
use crate::types::{
    ChanelMode, Colorspace, QoiDescriptor, QoiError, QoiRGBA, color_hash, seed_pixel,
    blank_pixel, fresh_cache, cache_slot, QOI_CACHE_SIZE, QOI_HEADER_SIZE, QOI_PIXELS_MAX,
};
use crate::stream::{
    diff_pixel, luma_pixel, luma_dg, delta_of_diff_field, delta_of_rb_field, cache_after,
    decode_ops, decode_tail, decode_result, be32_val, magic_bytes, bytes_of, pixel_bytes,
    lemma_bytes_of_push,
};

verus! {

broadcast use vstd::seq_lib::lemma_seq_skip_index, vstd::seq_lib::lemma_seq_skip_len;

/// Read the 32-bit big-endian value at offset `j`.
fn read_be32(data: &[u8], j: usize) -> (v: usize)
    requires
        j + 4 <= data@.len(),
    ensures
        v == be32_val(data@, j as int),
        v < 0x100000000,
{
    (data[j] as usize) * 0x1000000 + (data[j + 1] as usize) * 0x10000 + (data[j + 2] as usize)
        * 0x100 + (data[j + 3] as usize)
}

/// Store a pixel in its cache slot, as the shared stream specification
/// prescribes for every non-run op.
fn cache_put(cache: &mut Vec<QoiRGBA>, p: QoiRGBA)
    requires
        old(cache)@.len() == 64,
    ensures
        final(cache)@ == cache_after(p, old(cache)@),
        final(cache)@.len() == 64,
{
    let idx = color_hash(p) % 64;
    assert(idx == cache_slot(p));
    let ghost before = cache@;
    cache[idx] = p;
    proof {
        if before[idx as int] == p {
            assert(before.update(idx as int, p) =~= before);
        }
    }
}

/// Append one pixel's channels to the flat output buffer.
fn push_pixel(out: &mut Vec<u8>, p: QoiRGBA, ch: ChanelMode)
    ensures
        final(out)@ == old(out)@ + pixel_bytes(p, ch),
{
    out.push(p.r);
    out.push(p.g);
    out.push(p.b);
    match ch {
        ChanelMode::Rgb => {
            assert(final(out)@ =~= old(out)@ + pixel_bytes(p, ch));
        },
        ChanelMode::Rgba => {
            out.push(p.a);
            assert(final(out)@ =~= old(out)@ + pixel_bytes(p, ch));
        },
    }
}

/// Starting a decode owes nothing yet: the tail is the whole op stream.
proof fn lemma_tail_start(bytes: Seq<u8>, rem: nat, prev: QoiRGBA, cache: Seq<QoiRGBA>)
    ensures
        decode_tail(bytes, Seq::empty(), 0, rem, prev, cache) == decode_ops(bytes, rem, prev, cache),
{
    if 0 < rem {
        match decode_ops(bytes, rem, prev, cache) {
            None => {},
            Some(s) => {
                assert(Seq::empty() + Seq::new(0, |i: int| prev) + s =~= s);
            },
        }
    } else {
        assert(Seq::empty() + Seq::new(rem, |i: int| prev) =~= Seq::<QoiRGBA>::empty());
        assert(decode_ops(bytes, 0, prev, cache) == Some(Seq::<QoiRGBA>::empty()));
    }
}

/// With no slots left to fill, the decode is exactly the pixels already out.
proof fn lemma_tail_finish(
    bytes: Seq<u8>,
    done: Seq<QoiRGBA>,
    run: int,
    prev: QoiRGBA,
    cache: Seq<QoiRGBA>,
)
    requires
        run >= 0,
    ensures
        decode_tail(bytes, done, run, 0, prev, cache) == Some(done),
{
    assert(done + Seq::new(0, |i: int| prev) =~= done);
}

/// Serving one owed pixel of a pending run moves it from the run to `done`.
proof fn lemma_tail_pending(
    bytes: Seq<u8>,
    done: Seq<QoiRGBA>,
    run: int,
    rem: nat,
    prev: QoiRGBA,
    cache: Seq<QoiRGBA>,
)
    requires
        1 <= run,
        1 <= rem,
    ensures
        decode_tail(bytes, done, run, rem, prev, cache) == decode_tail(
            bytes,
            done.push(prev),
            run - 1,
            (rem - 1) as nat,
            prev,
            cache,
        ),
{
    if run >= rem {
        assert(done + Seq::new(rem, |i: int| prev) =~= done.push(prev) + Seq::new(
            (rem - 1) as nat,
            |i: int| prev,
        ));
    } else {
        match decode_ops(bytes, (rem - run) as nat, prev, cache) {
            None => {},
            Some(s) => {
                assert(done + Seq::new(run as nat, |i: int| prev) + s =~= done.push(prev)
                    + Seq::new((run - 1) as nat, |i: int| prev) + s);
            },
        }
    }
}

/// Reading one non-run op that yields pixel `p2` and consumes `c` bytes
/// advances the tail accordingly.
proof fn lemma_tail_op(
    bytes: Seq<u8>,
    done: Seq<QoiRGBA>,
    rem: nat,
    prev: QoiRGBA,
    cache: Seq<QoiRGBA>,
    p2: QoiRGBA,
    c: int,
    cache2: Seq<QoiRGBA>,
)
    requires
        1 <= rem,
        0 <= c <= bytes.len(),
        decode_ops(bytes, rem, prev, cache) == (match decode_ops(
            bytes.skip(c),
            (rem - 1) as nat,
            p2,
            cache2,
        ) {
            None => None::<Seq<QoiRGBA>>,
            Some(s) => Some(seq![p2] + s),
        }),
    ensures
        decode_tail(bytes, done, 0, rem, prev, cache) == decode_tail(
            bytes.skip(c),
            done.push(p2),
            0,
            (rem - 1) as nat,
            p2,
            cache2,
        ),
{
    let inner = decode_ops(bytes.skip(c), (rem - 1) as nat, p2, cache2);
    if rem == 1 {
        assert(decode_ops(bytes.skip(c), 0, p2, cache2) == Some(Seq::<QoiRGBA>::empty()));
        assert(done + Seq::new(0, |i: int| prev) + (seq![p2] + Seq::<QoiRGBA>::empty())
            =~= done.push(p2) + Seq::new(0, |i: int| p2));
    } else {
        match inner {
            None => {},
            Some(s) => {
                assert(done + Seq::new(0, |i: int| prev) + (seq![p2] + s) =~= done.push(p2)
                    + Seq::new(0, |i: int| p2) + s);
            },
        }
    }
}

/// A stream too short for the op it announces decodes to nothing.
proof fn lemma_decode_truncated(bytes: Seq<u8>, rem: nat, prev: QoiRGBA, cache: Seq<QoiRGBA>)
    requires
        1 <= rem,
        bytes.len() == 0 || (bytes[0] == 254 && bytes.len() < 4) || (bytes[0] == 255
            && bytes.len() < 5) || (128 <= bytes[0] < 192 && bytes.len() < 2),
    ensures
        decode_ops(bytes, rem, prev, cache) is None,
{
}

/// Reading a full-RGB op advances the tail by one pixel and four bytes.
proof fn lemma_tail_rgb_op(
    bytes: Seq<u8>,
    done: Seq<QoiRGBA>,
    rem: nat,
    prev: QoiRGBA,
    cache: Seq<QoiRGBA>,
    p2: QoiRGBA,
)
    requires
        1 <= rem,
        bytes.len() >= 4,
        bytes[0] == 254,
        p2 == (QoiRGBA { r: bytes[1], g: bytes[2], b: bytes[3], a: prev.a }),
    ensures
        decode_tail(bytes, done, 0, rem, prev, cache) == decode_tail(
            bytes.skip(4),
            done.push(p2),
            0,
            (rem - 1) as nat,
            p2,
            cache_after(p2, cache),
        ),
{
    lemma_tail_op(bytes, done, rem, prev, cache, p2, 4, cache_after(p2, cache));
}

/// Reading a full-RGBA op advances the tail by one pixel and five bytes.
proof fn lemma_tail_rgba_op(
    bytes: Seq<u8>,
    done: Seq<QoiRGBA>,
    rem: nat,
    prev: QoiRGBA,
    cache: Seq<QoiRGBA>,
    p2: QoiRGBA,
)
    requires
        1 <= rem,
        bytes.len() >= 5,
        bytes[0] == 255,
        p2 == (QoiRGBA { r: bytes[1], g: bytes[2], b: bytes[3], a: bytes[4] }),
    ensures
        decode_tail(bytes, done, 0, rem, prev, cache) == decode_tail(
            bytes.skip(5),
            done.push(p2),
            0,
            (rem - 1) as nat,
            p2,
            cache_after(p2, cache),
        ),
{
    lemma_tail_op(bytes, done, rem, prev, cache, p2, 5, cache_after(p2, cache));
}

/// Reading a cache-index op advances the tail by one pixel and one byte,
/// leaving the cache as it is.
proof fn lemma_tail_index_op(
    bytes: Seq<u8>,
    done: Seq<QoiRGBA>,
    rem: nat,
    prev: QoiRGBA,
    cache: Seq<QoiRGBA>,
)
    requires
        1 <= rem,
        bytes.len() >= 1,
        bytes[0] < 64,
    ensures
        decode_tail(bytes, done, 0, rem, prev, cache) == decode_tail(
            bytes.skip(1),
            done.push(cache[bytes[0] as int]),
            0,
            (rem - 1) as nat,
            cache[bytes[0] as int],
            cache,
        ),
{
    lemma_tail_op(bytes, done, rem, prev, cache, cache[bytes[0] as int], 1, cache);
}

/// Reading a diff op advances the tail by one pixel and one byte.
proof fn lemma_tail_diff_op(
    bytes: Seq<u8>,
    done: Seq<QoiRGBA>,
    rem: nat,
    prev: QoiRGBA,
    cache: Seq<QoiRGBA>,
)
    requires
        1 <= rem,
        bytes.len() >= 1,
        64 <= bytes[0] < 128,
    ensures
        decode_tail(bytes, done, 0, rem, prev, cache) == decode_tail(
            bytes.skip(1),
            done.push(diff_pixel(prev, bytes[0])),
            0,
            (rem - 1) as nat,
            diff_pixel(prev, bytes[0]),
            cache_after(diff_pixel(prev, bytes[0]), cache),
        ),
{
    let p2 = diff_pixel(prev, bytes[0]);
    lemma_tail_op(bytes, done, rem, prev, cache, p2, 1, cache_after(p2, cache));
}

/// Reading a luma op advances the tail by one pixel and two bytes.
proof fn lemma_tail_luma_op(
    bytes: Seq<u8>,
    done: Seq<QoiRGBA>,
    rem: nat,
    prev: QoiRGBA,
    cache: Seq<QoiRGBA>,
)
    requires
        1 <= rem,
        bytes.len() >= 2,
        128 <= bytes[0] < 192,
    ensures
        decode_tail(bytes, done, 0, rem, prev, cache) == decode_tail(
            bytes.skip(2),
            done.push(luma_pixel(prev, bytes[0], bytes[1])),
            0,
            (rem - 1) as nat,
            luma_pixel(prev, bytes[0], bytes[1]),
            cache_after(luma_pixel(prev, bytes[0], bytes[1]), cache),
        ),
{
    let p2 = luma_pixel(prev, bytes[0], bytes[1]);
    lemma_tail_op(bytes, done, rem, prev, cache, p2, 2, cache_after(p2, cache));
}

/// Reading a run op byte `b0` serves one pixel now and owes `b0 - 192`
/// further copies of the previous pixel.
proof fn lemma_tail_run_op(
    bytes: Seq<u8>,
    done: Seq<QoiRGBA>,
    rem: nat,
    prev: QoiRGBA,
    cache: Seq<QoiRGBA>,
)
    requires
        1 <= rem,
        bytes.len() >= 1,
        192 <= bytes[0] <= 253,
    ensures
        decode_tail(bytes, done, 0, rem, prev, cache) == decode_tail(
            bytes.skip(1),
            done.push(prev),
            bytes[0] - 192,
            (rem - 1) as nat,
            prev,
            cache,
        ),
{
    let v = bytes[0] - 192;
    let c0 = v + 1;
    let m = if c0 <= rem {
        c0
    } else {
        rem as int
    };
    let inner = decode_ops(bytes.skip(1), (rem - m) as nat, prev, cache);
    assert(decode_ops(bytes, rem, prev, cache) == (match inner {
        None => None::<Seq<QoiRGBA>>,
        Some(s) => Some(Seq::new(m as nat, |i: int| prev) + s),
    }));
    if c0 >= rem {
        assert(decode_ops(bytes.skip(1), 0, prev, cache) == Some(Seq::<QoiRGBA>::empty()));
        assert(done + Seq::new(0, |i: int| prev) + (Seq::new(rem, |i: int| prev)
            + Seq::<QoiRGBA>::empty()) =~= done.push(prev) + Seq::new(
            (rem - 1) as nat,
            |i: int| prev,
        ));
    } else {
        match inner {
            None => {},
            Some(s) => {
                assert(done + Seq::new(0, |i: int| prev) + (Seq::new(c0 as nat, |i: int| prev) + s)
                    =~= done.push(prev) + Seq::new(v as nat, |i: int| prev) + s);
            },
        }
    }
}

/// Decode a QOI image from a byte buffer.
///
/// The channel mode is taken from the stream's header unless the caller
/// forces one, in which case the header's channel byte is still consumed
/// but ignored. The result is exactly what the shared stream specification
/// prescribes: the flat pixel buffer and the recovered descriptor, or the
/// error the stream deserves.
#[verifier::rlimit(100)]
pub fn qoi_decode(data: &[u8], channels: Option<ChanelMode>) -> (res: Result<
    (Vec<u8>, QoiDescriptor),
    QoiError,
>)
    ensures
        ({
            let dec = decode_result(data@, channels);
            match res {
                Ok(v) => dec == Ok::<(Seq<u8>, QoiDescriptor), QoiError>((v.0@, v.1)),
                Err(e) => dec == Err::<(Seq<u8>, QoiDescriptor), QoiError>(e),
            }
        }),
{
    if data.len() < 4 {
        return Err(QoiError::UnexpectedEnd);
    }
    if !(data[0] == 113 && data[1] == 111 && data[2] == 105 && data[3] == 102) {
        assert(data@.subrange(0, 4) != magic_bytes());
        return Err(QoiError::BadMagic);
    }
    assert(data@.subrange(0, 4) =~= magic_bytes());
    if data.len() < 14 {
        return Err(QoiError::UnexpectedEnd);
    }
    let chmode = match channels {
        Some(c) => c,
        None => {
            if data[12] == 3 {
                ChanelMode::Rgb
            } else if data[12] == 4 {
                ChanelMode::Rgba
            } else {
                return Err(QoiError::BadChannelCount);
            }
        },
    };
    let cs = if data[13] == 0 {
        Colorspace::Srgb
    } else if data[13] == 1 {
        Colorspace::Linear
    } else {
        return Err(QoiError::BadColorspace);
    };
    let w = read_be32(data, 4);
    let h = read_be32(data, 8);
    if w == 0 || h == 0 {
        return Err(QoiError::ZeroDimension);
    }
    proof {
        lemma_fundamental_div_mod((QOI_PIXELS_MAX - 1) as int, w as int);
        lemma_mod_bound((QOI_PIXELS_MAX - 1) as int, w as int);
        let qd = (QOI_PIXELS_MAX - 1) as int / w as int;
        let rr = (QOI_PIXELS_MAX - 1) as int % w as int;
        assert((h > qd) == (w * h >= QOI_PIXELS_MAX)) by (nonlinear_arith)
            requires
                (QOI_PIXELS_MAX - 1) as int == w * qd + rr,
                0 <= rr < w,
                h >= 1,
                w >= 1,
        ;
    }
    if h > (QOI_PIXELS_MAX - 1) / w {
        return Err(QoiError::TooManyPixels);
    }
    let npix = w * h;
    let desc0 = QoiDescriptor { width: w, height: h, channels: chmode, colorspace: cs };

    let ghost stream: Seq<u8> = data@.skip(14);
    let ghost dtotal: Option<Seq<QoiRGBA>> = decode_ops(
        stream,
        npix as nat,
        seed_pixel(),
        fresh_cache(),
    );
    proof {
        assert(decode_result(data@, channels) == (match dtotal {
            None => Err::<(Seq<u8>, QoiDescriptor), QoiError>(QoiError::UnexpectedEnd),
            Some(s) => Ok::<(Seq<u8>, QoiDescriptor), QoiError>((bytes_of(s, chmode), desc0)),
        }));
    }

    let mut cache: Vec<QoiRGBA> = Vec::new();
    let mut ci: usize = 0;
    while ci < QOI_CACHE_SIZE
        invariant
            ci <= 64,
            cache@.len() == ci,
            forall|t: int| 0 <= t < ci ==> cache@[t] == blank_pixel(),
        decreases 64 - ci,
    {
        cache.push(QoiRGBA::new(0, 0, 0, 0));
        ci += 1;
    }
    assert(cache@ =~= fresh_cache());

    let mut out: Vec<u8> = Vec::new();
    let mut px = QoiRGBA::new(0, 0, 0, 255);
    let mut run: u8 = 0;
    let mut j: usize = QOI_HEADER_SIZE;
    let mut k: usize = 0;
    let ghost mut done: Seq<QoiRGBA> = Seq::empty();
    proof {
        assert(px == seed_pixel());
        lemma_tail_start(stream, npix as nat, px, cache@);
        assert(out@ =~= bytes_of(done, chmode));
    }
    while k < npix
        invariant
            k <= npix,
            14 <= j <= data@.len(),
            cache@.len() == 64,
            run <= 61,
            done.len() == k,
            out@ == bytes_of(done, chmode),
            dtotal == decode_tail(data@.skip(j as int), done, run as int, (npix - k) as nat, px, cache@),
            decode_result(data@, channels) == (match dtotal {
                None => Err::<(Seq<u8>, QoiDescriptor), QoiError>(QoiError::UnexpectedEnd),
                Some(s) => Ok::<(Seq<u8>, QoiDescriptor), QoiError>((bytes_of(s, chmode), desc0)),
            }),
        decreases npix - k,
    {
        let ghost bytes_j: Seq<u8> = data@.skip(j as int);
        let ghost rem: nat = (npix - k) as nat;
        if run > 0 {
            proof {
                lemma_tail_pending(bytes_j, done, run as int, rem, px, cache@);
                lemma_bytes_of_push(done, px, chmode);
                done = done.push(px);
            }
            run = run - 1;
        } else {
            if j >= data.len() {
                proof {
                    lemma_decode_truncated(bytes_j, rem, px, cache@);
                }
                return Err(QoiError::UnexpectedEnd);
            }
            let b0 = data[j];
            assert(bytes_j[0] == b0);
            if b0 == 254 {
                if data.len() - j < 4 {
                    proof {
                        lemma_decode_truncated(bytes_j, rem, px, cache@);
                    }
                    return Err(QoiError::UnexpectedEnd);
                }
                let p2 = QoiRGBA::new(data[j + 1], data[j + 2], data[j + 3], px.a);
                proof {
                    assert(bytes_j.skip(4) =~= data@.skip(j + 4));
                    lemma_tail_rgb_op(bytes_j, done, rem, px, cache@, p2);
                    lemma_bytes_of_push(done, p2, chmode);
                    done = done.push(p2);
                }
                cache_put(&mut cache, p2);
                px = p2;
                j = j + 4;
            } else if b0 == 255 {
                if data.len() - j < 5 {
                    proof {
                        lemma_decode_truncated(bytes_j, rem, px, cache@);
                    }
                    return Err(QoiError::UnexpectedEnd);
                }
                let p2 = QoiRGBA::new(data[j + 1], data[j + 2], data[j + 3], data[j + 4]);
                proof {
                    assert(bytes_j.skip(5) =~= data@.skip(j + 5));
                    lemma_tail_rgba_op(bytes_j, done, rem, px, cache@, p2);
                    lemma_bytes_of_push(done, p2, chmode);
                    done = done.push(p2);
                }
                cache_put(&mut cache, p2);
                px = p2;
                j = j + 5;
            } else if b0 < 64 {
                let p2 = cache[b0 as usize];
                proof {
                    assert(bytes_j.skip(1) =~= data@.skip(j + 1));
                    lemma_tail_index_op(bytes_j, done, rem, px, cache@);
                    lemma_bytes_of_push(done, p2, chmode);
                    done = done.push(p2);
                }
                px = p2;
                j = j + 1;
            } else if b0 < 128 {
                let x = b0 - 64;
                let fr = x / 16;
                let fg = (x / 4) % 4;
                let fb = x % 4;
                let dr = if fr >= 2 {
                    fr - 2
                } else {
                    fr + 254
                };
                let dg = if fg >= 2 {
                    fg - 2
                } else {
                    fg + 254
                };
                let db = if fb >= 2 {
                    fb - 2
                } else {
                    fb + 254
                };
                let p2 = QoiRGBA::new(
                    px.r.wrapping_add(dr),
                    px.g.wrapping_add(dg),
                    px.b.wrapping_add(db),
                    px.a,
                );
                proof {
                    assert(dr == delta_of_diff_field(x as int / 16));
                    assert(dg == delta_of_diff_field((x as int / 4) % 4));
                    assert(db == delta_of_diff_field(x as int % 4));
                    assert(p2 == diff_pixel(px, b0));
                    assert(bytes_j.skip(1) =~= data@.skip(j + 1));
                    lemma_tail_diff_op(bytes_j, done, rem, px, cache@);
                    lemma_bytes_of_push(done, p2, chmode);
                    done = done.push(p2);
                }
                cache_put(&mut cache, p2);
                px = p2;
                j = j + 1;
            } else if b0 < 192 {
                if data.len() - j < 2 {
                    proof {
                        lemma_decode_truncated(bytes_j, rem, px, cache@);
                    }
                    return Err(QoiError::UnexpectedEnd);
                }
                let b1 = data[j + 1];
                let g6 = b0 - 128;
                let dg = if g6 >= 32 {
                    g6 - 32
                } else {
                    g6 + 224
                };
                let hn = b1 / 16;
                let ln = b1 % 16;
                let drd = if hn >= 8 {
                    hn - 8
                } else {
                    hn + 248
                };
                let dbd = if ln >= 8 {
                    ln - 8
                } else {
                    ln + 248
                };
                let dr = dg.wrapping_add(drd);
                let db = dg.wrapping_add(dbd);
                let p2 = QoiRGBA::new(
                    px.r.wrapping_add(dr),
                    px.g.wrapping_add(dg),
                    px.b.wrapping_add(db),
                    px.a,
                );
                proof {
                    assert(bytes_j[1] == b1);
                    assert(dg == luma_dg(b0));
                    assert(drd == delta_of_rb_field(b1 as int / 16));
                    assert(dbd == delta_of_rb_field(b1 as int % 16));
                    assert(p2 == luma_pixel(px, b0, b1));
                    assert(bytes_j.skip(2) =~= data@.skip(j + 2));
                    lemma_tail_luma_op(bytes_j, done, rem, px, cache@);
                    lemma_bytes_of_push(done, p2, chmode);
                    done = done.push(p2);
                }
                cache_put(&mut cache, p2);
                px = p2;
                j = j + 2;
            } else {
                proof {
                    assert(bytes_j.skip(1) =~= data@.skip(j + 1));
                    lemma_tail_run_op(bytes_j, done, rem, px, cache@);
                    lemma_bytes_of_push(done, px, chmode);
                    done = done.push(px);
                }
                run = b0 - 192;
                j = j + 1;
            }
        }
        push_pixel(&mut out, px, chmode);
        k = k + 1;
    }
    proof {
        lemma_tail_finish(data@.skip(j as int), done, run as int, px, cache@);
        assert(dtotal == Some(done));
    }
    Ok((out, desc0))
}

} // verus!
