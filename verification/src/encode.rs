//! The encoder: raw RGB or RGBA pixels to a QOI byte stream.

use vstd::prelude::*;
use vstd::arithmetic::div_mod::lemma_fundamental_div_mod_converse;
use vstd::arithmetic::mul::lemma_mul_inequality;
use vstd::seq_lib::lemma_concat_associative;
use crate::types::{
    ChanelMode, QoiDescriptor, QoiError, QoiRGBA, color_hash, seed_pixel, blank_pixel,
    fresh_cache, cache_slot, QOI_CACHE_SIZE, QOI_PIXELS_MAX,
};
use crate::stream::{
    byte_sub, diff_field, luma_field_g, luma_field_rb, op_for, cache_after, encode_ops,
    header_bytes, be32_bytes, stream_tail, pixels_of, pixel_at, encode_result,
    lemma_encode_run_step, lemma_encode_op_step,
};

verus! {

/// Append a 32-bit value as four big-endian bytes.
fn push_be32(out: &mut Vec<u8>, v: usize)
    requires
        v < 0x100000000,
    ensures
        final(out)@ == old(out)@ + be32_bytes(v as int),
{
    out.push(((v / 0x1000000) % 256) as u8);
    out.push(((v / 0x10000) % 256) as u8);
    out.push(((v / 0x100) % 256) as u8);
    out.push((v % 256) as u8);
    assert(final(out)@ =~= old(out)@ + be32_bytes(v as int));
}

/// Read pixel number `pi` from the flat buffer, lifting it to canonical
/// RGBA form.
fn read_pixel(pixels: &[u8], pos: usize, ch: ChanelMode, Ghost(pi): Ghost<int>) -> (p: QoiRGBA)
    requires
        0 <= pi,
        pos == pi * ch.count(),
        pos + ch.count() <= pixels@.len(),
    ensures
        p == pixel_at(pixels@, ch, pi),
{
    match ch {
        ChanelMode::Rgb => QoiRGBA::new(pixels[pos], pixels[pos + 1], pixels[pos + 2], 255),
        ChanelMode::Rgba => QoiRGBA::new(
            pixels[pos],
            pixels[pos + 1],
            pixels[pos + 2],
            pixels[pos + 3],
        ),
    }
}

/// Appending one byte to a concatenation extends its second part.
proof fn lemma_snoc_concat<T>(a: Seq<T>, b: Seq<T>, x: T)
    ensures
        (a + b).push(x) == a + (b + seq![x]),
{
    assert((a + b).push(x) =~= a + (b + seq![x]));
}

/// Emit the op for one pixel that does not extend a run, and update the
/// cache exactly as the shared stream specification prescribes.
fn emit_op(out: &mut Vec<u8>, px: QoiRGBA, prev: QoiRGBA, cache: &mut Vec<QoiRGBA>)
    requires
        old(cache)@.len() == 64,
    ensures
        final(out)@ == old(out)@ + op_for(px, prev, old(cache)@),
        final(cache)@ == cache_after(px, old(cache)@),
        final(cache)@.len() == 64,
{
    let idx = color_hash(px) % 64;
    assert(idx == cache_slot(px));
    if cache[idx] == px {
        out.push(idx as u8);
        assert(final(out)@ =~= old(out)@ + op_for(px, prev, old(cache)@));
    } else {
        cache[idx] = px;
        if px.a == prev.a {
            let dr = px.r.wrapping_sub(prev.r);
            let dg = px.g.wrapping_sub(prev.g);
            let db = px.b.wrapping_sub(prev.b);
            assert(dr == byte_sub(px.r, prev.r));
            assert(dg == byte_sub(px.g, prev.g));
            assert(db == byte_sub(px.b, prev.b));
            let dg_dr = dr.wrapping_sub(dg);
            let dg_db = db.wrapping_sub(dg);
            if (dr <= 1 || dr >= 254) && (dg <= 1 || dg >= 254) && (db <= 1 || db >= 254) {
                let fr = dr.wrapping_add(2);
                let fg = dg.wrapping_add(2);
                let fb = db.wrapping_add(2);
                assert(fr == diff_field(dr) && fr <= 3);
                assert(fg == diff_field(dg) && fg <= 3);
                assert(fb == diff_field(db) && fb <= 3);
                out.push(64 + fr * 16 + fg * 4 + fb);
                assert(final(out)@ =~= old(out)@ + op_for(px, prev, old(cache)@));
            } else if (dg_dr <= 7 || dg_dr >= 248) && (dg_db <= 7 || dg_db >= 248)
                && (dg <= 31 || dg >= 224) {
                let fg6 = dg.wrapping_add(32);
                let fr4 = dg_dr.wrapping_add(8);
                let fb4 = dg_db.wrapping_add(8);
                assert(fg6 == luma_field_g(dg) && fg6 <= 63);
                assert(fr4 == luma_field_rb(dg_dr) && fr4 <= 15);
                assert(fb4 == luma_field_rb(dg_db) && fb4 <= 15);
                out.push(128 + fg6);
                out.push(fr4 * 16 + fb4);
                assert(final(out)@ =~= old(out)@ + op_for(px, prev, old(cache)@));
            } else {
                out.push(254);
                out.push(px.r);
                out.push(px.g);
                out.push(px.b);
                assert(final(out)@ =~= old(out)@ + op_for(px, prev, old(cache)@));
            }
        } else {
            out.push(255);
            out.push(px.r);
            out.push(px.g);
            out.push(px.b);
            out.push(px.a);
            assert(final(out)@ =~= old(out)@ + op_for(px, prev, old(cache)@));
        }
    }
}

/// Encode raw RGB or RGBA pixels into a QOI image in memory.
///
/// The pixel buffer must hold exactly `width * height` pixels in the given
/// channel mode. Zero dimensions and pixel counts at or above
/// [`QOI_PIXELS_MAX`] are rejected; every accepted input produces exactly
/// the byte stream that the shared stream specification prescribes.
#[verifier::rlimit(100)]
pub fn qoi_encode(pixels: &[u8], desc: &QoiDescriptor) -> (res: Result<Vec<u8>, QoiError>)
    requires
        pixels@.len() == desc.width * desc.height * desc.channels.count(),
    ensures
        ({
            let enc = encode_result(pixels@, *desc);
            match res {
                Ok(v) => enc == Ok::<Seq<u8>, QoiError>(v@),
                Err(e) => enc == Err::<Seq<u8>, QoiError>(e),
            }
        }),
{
    let len = pixels.len();
    if desc.width == 0 || desc.height == 0 {
        return Err(QoiError::ZeroDimension);
    }
    assert(desc.width * desc.height <= len && desc.width * desc.height >= 1) by (nonlinear_arith)
        requires
            len == desc.width * desc.height * desc.channels.count(),
            desc.channels.count() >= 3,
            desc.width >= 1,
            desc.height >= 1,
    ;
    let npix = desc.width * desc.height;
    if npix >= QOI_PIXELS_MAX {
        return Err(QoiError::TooManyPixels);
    }
    assert(desc.width < QOI_PIXELS_MAX && desc.height < QOI_PIXELS_MAX) by (nonlinear_arith)
        requires
            desc.width * desc.height < QOI_PIXELS_MAX,
            desc.width >= 1,
            desc.height >= 1,
    ;

    let chan = desc.channels.channel_count();
    let mut out: Vec<u8> = Vec::new();
    out.push(113);
    out.push(111);
    out.push(105);
    out.push(102);
    push_be32(&mut out, desc.width);
    push_be32(&mut out, desc.height);
    out.push(chan as u8);
    out.push(desc.colorspace.tag_byte());
    let ghost header: Seq<u8> = header_bytes(*desc);
    assert(out@ =~= header);

    let ghost q: Seq<QoiRGBA> = pixels_of(pixels@, desc.channels);
    let ghost total: Seq<u8> = encode_ops(q, 0, seed_pixel(), fresh_cache());
    proof {
        lemma_fundamental_div_mod_converse(len as int, chan as int, npix as int, 0);
        assert(q.len() == npix);
    }

    let mut cache: Vec<QoiRGBA> = Vec::new();
    let mut ci: usize = 0;
    while ci < QOI_CACHE_SIZE
        invariant
            ci <= 64,
            cache@.len() == ci,
            forall|j: int| 0 <= j < ci ==> cache@[j] == blank_pixel(),
        decreases 64 - ci,
    {
        cache.push(QoiRGBA::new(0, 0, 0, 0));
        ci += 1;
    }
    assert(cache@ =~= fresh_cache());

    let mut prev = QoiRGBA::new(0, 0, 0, 255);
    let mut run: u8 = 0;
    let mut pi: usize = 0;
    let mut pos: usize = 0;
    let ghost mut emitted: Seq<u8> = Seq::empty();
    proof {
        assert(prev == seed_pixel());
        assert(emitted + encode_ops(q, 0, prev, cache@) =~= total);
    }
    while pi < npix
        invariant
            pi <= npix,
            npix == desc.width * desc.height,
            1 <= npix < QOI_PIXELS_MAX,
            chan == desc.channels.count(),
            pixels@.len() == npix * chan,
            q == pixels_of(pixels@, desc.channels),
            q.len() == npix,
            total == encode_ops(q, 0, seed_pixel(), fresh_cache()),
            header == header_bytes(*desc),
            pos == pi * chan,
            cache@.len() == 64,
            run <= 61,
            run <= pi,
            pi == npix ==> run == 0,
            forall|j: int| pi - run <= j < pi ==> q[j] == prev,
            out@ == header + emitted,
            emitted + encode_ops(q, pi - run, prev, cache@) == total,
        decreases npix - pi,
    {
        proof {
            lemma_mul_inequality(pi + 1 as int, npix as int, chan as int);
            assert(pos + chan == (pi + 1) * chan) by (nonlinear_arith)
                requires
                    pos == pi * chan,
            ;
        }
        let px = read_pixel(pixels, pos, desc.channels, Ghost(pi as int));
        assert(px == q[pi as int]);
        if px == prev {
            run = run + 1;
            if run == 62 || pi == npix - 1 {
                let b: u8 = 192 + (run - 1);
                out.push(b);
                proof {
                    let i0 = pi + 1 - run;
                    let rest = encode_ops(q, pi + 1 as int, prev, cache@);
                    lemma_encode_run_step(q, i0, prev, cache@, run as int);
                    lemma_concat_associative(emitted, seq![b], rest);
                    lemma_snoc_concat(header, emitted, b);
                    emitted = emitted + seq![b];
                }
                run = 0;
            }
        } else {
            if run > 0 {
                let b: u8 = 192 + (run - 1);
                out.push(b);
                proof {
                    let i0 = pi - run;
                    let rest = encode_ops(q, pi as int, prev, cache@);
                    lemma_encode_run_step(q, i0, prev, cache@, run as int);
                    lemma_concat_associative(emitted, seq![b], rest);
                    lemma_snoc_concat(header, emitted, b);
                    emitted = emitted + seq![b];
                }
                run = 0;
            }
            proof {
                lemma_encode_op_step(q, pi as int, prev, cache@);
            }
            let ghost cache_old: Seq<QoiRGBA> = cache@;
            let ghost op: Seq<u8> = op_for(px, prev, cache_old);
            emit_op(&mut out, px, prev, &mut cache);
            proof {
                lemma_concat_associative(emitted, op, encode_ops(q, pi + 1 as int, px, cache@));
                lemma_concat_associative(header, emitted, op);
                emitted = emitted + op;
            }
        }
        prev = px;
        pi = pi + 1;
        pos = pos + chan;
    }
    proof {
        assert(encode_ops(q, npix as int, prev, cache@) =~= Seq::empty());
        assert(emitted + Seq::<u8>::empty() =~= emitted);
        assert(emitted == total);
    }
    out.push(0);
    out.push(0);
    out.push(0);
    out.push(0);
    out.push(0);
    out.push(0);
    out.push(0);
    out.push(1);
    assert(out@ =~= header + total + stream_tail());
    Ok(out)
}

} // verus!
