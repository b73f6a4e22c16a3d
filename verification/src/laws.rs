//! The laws the codec obeys, proved once and for all: the encoder's output
//! always decodes back to the original pixels, runs are flushed and capped
//! exactly as the format prescribes, and a cache hit takes priority over a
//! diff op.

use vstd::prelude::*;
use vstd::arithmetic::div_mod::{
    lemma_fundamental_div_mod, lemma_fundamental_div_mod_converse, lemma_div_denominator,
    lemma_div_is_ordered, lemma_div_pos_is_pos, lemma_small_mod, lemma_mod_bound,
};
use vstd::arithmetic::mul::lemma_mul_inequality;
use crate::types::{
    ChanelMode, Colorspace, QoiDescriptor, QoiError, QoiRGBA, color_hash_raw, cache_slot,
    seed_pixel, fresh_cache, QOI_PIXELS_MAX,
};
use crate::stream::{
    byte_add, byte_sub, near2, luma_ok_g, luma_ok_rb, diff_field, luma_field_g, luma_field_rb,
    delta_of_diff_field, delta_of_rb_field, luma_dg, diff_pixel, luma_pixel, op_for, cache_after,
    encode_ops, decode_ops, encode_result, decode_result, pixels_of, pixel_at, bytes_of,
    pixel_bytes, header_bytes, be32_val, magic_bytes, stream_tail, run_take, eq_run,
    lemma_eq_run_bounds, lemma_eq_run_members, lemma_byte_add_sub, lemma_encode_run_step,
    lemma_encode_op_step,
};

verus! {

broadcast use vstd::seq_lib::lemma_seq_skip_index, vstd::seq_lib::lemma_seq_skip_len,
    vstd::seq_lib::lemma_seq_take_index, vstd::seq_lib::lemma_seq_take_len;

/// One non-run op, as the encoder emits it, decodes back to exactly the
/// pixel it was emitted for, consumes exactly the op's bytes, and leaves
/// the decoder's running state equal to the encoder's.
#[verifier::rlimit(100)]
proof fn lemma_op_for_decodes(p: QoiRGBA, prev: QoiRGBA, cache: Seq<QoiRGBA>, rest2: Seq<u8>, n: nat)
    requires
        n >= 1,
        cache.len() == 64,
    ensures
        decode_ops(op_for(p, prev, cache) + rest2, n, prev, cache) == (match decode_ops(
            rest2,
            (n - 1) as nat,
            p,
            cache_after(p, cache),
        ) {
            None => None::<Seq<QoiRGBA>>,
            Some(s) => Some(seq![p] + s),
        }),
{
    let bytes = op_for(p, prev, cache) + rest2;
    let slot = cache_slot(p);
    lemma_mod_bound(color_hash_raw(p), 64);
    assert(0 <= slot < 64);
    if cache[slot] == p {
        assert(bytes[0] == slot as u8);
        assert(bytes.skip(1) =~= rest2);
        assert(cache[bytes[0] as int] == p);
        assert(cache_after(p, cache) == cache);
    } else if p.a == prev.a {
        let dr = byte_sub(p.r, prev.r);
        let dg = byte_sub(p.g, prev.g);
        let db = byte_sub(p.b, prev.b);
        let dg_dr = byte_sub(dr, dg);
        let dg_db = byte_sub(db, dg);
        lemma_byte_add_sub(p.r, prev.r);
        lemma_byte_add_sub(p.g, prev.g);
        lemma_byte_add_sub(p.b, prev.b);
        if near2(dr) && near2(dg) && near2(db) {
            let fr = diff_field(dr);
            let fg = diff_field(dg);
            let fb = diff_field(db);
            let b0 = (64 + fr * 16 + fg * 4 + fb) as u8;
            assert(bytes[0] == b0);
            assert(64 <= b0 < 128);
            let x = b0 - 64;
            lemma_fundamental_div_mod_converse(x as int, 16, fr, fg * 4 + fb);
            lemma_fundamental_div_mod_converse(x as int, 4, fr * 4 + fg, fb);
            lemma_fundamental_div_mod_converse(fr * 4 + fg, 4, fr, fg);
            assert(delta_of_diff_field(x as int / 16) == dr);
            assert(delta_of_diff_field((x as int / 4) % 4) == dg);
            assert(delta_of_diff_field(x as int % 4) == db);
            assert(diff_pixel(prev, b0) == p);
            assert(bytes.skip(1) =~= rest2);
        } else if luma_ok_rb(dg_dr) && luma_ok_rb(dg_db) && luma_ok_g(dg) {
            let b0 = (128 + luma_field_g(dg)) as u8;
            let hn = luma_field_rb(dg_dr);
            let ln = luma_field_rb(dg_db);
            let b1 = (hn * 16 + ln) as u8;
            assert(bytes[0] == b0);
            assert(bytes[1] == b1);
            assert(128 <= b0 < 192);
            assert(bytes.len() >= 2);
            lemma_fundamental_div_mod_converse(b1 as int, 16, hn, ln);
            assert(luma_dg(b0) == dg);
            assert(delta_of_rb_field(b1 as int / 16) == dg_dr);
            assert(delta_of_rb_field(b1 as int % 16) == dg_db);
            lemma_byte_add_sub(dr, dg);
            lemma_byte_add_sub(db, dg);
            assert(byte_add(dg, dg_dr) == dr);
            assert(byte_add(dg, dg_db) == db);
            assert(luma_pixel(prev, b0, b1) == p);
            assert(bytes.skip(2) =~= rest2);
        } else {
            assert(bytes[0] == 254);
            assert(bytes[1] == p.r && bytes[2] == p.g && bytes[3] == p.b);
            assert(bytes.len() >= 4);
            assert(bytes.skip(4) =~= rest2);
            assert((QoiRGBA { r: bytes[1], g: bytes[2], b: bytes[3], a: prev.a }) == p);
        }
    } else {
        assert(bytes[0] == 255);
        assert(bytes[1] == p.r && bytes[2] == p.g && bytes[3] == p.b && bytes[4] == p.a);
        assert(bytes.len() >= 5);
        assert(bytes.skip(5) =~= rest2);
        assert((QoiRGBA { r: bytes[1], g: bytes[2], b: bytes[3], a: bytes[4] }) == p);
    }
}

/// The op stream the encoder emits from any running state decodes, from
/// the same running state, back to exactly the pixels it encoded --
/// whatever bytes follow the op stream.
#[verifier::rlimit(100)]
pub proof fn lemma_decode_encode_ops(
    q: Seq<QoiRGBA>,
    i: int,
    prev: QoiRGBA,
    cache: Seq<QoiRGBA>,
    rest: Seq<u8>,
)
    requires
        0 <= i <= q.len(),
        cache.len() == 64,
    ensures
        decode_ops(encode_ops(q, i, prev, cache) + rest, (q.len() - i) as nat, prev, cache)
            == Some(q.skip(i)),
    decreases q.len() - i,
{
    let n = (q.len() - i) as nat;
    let bytes = encode_ops(q, i, prev, cache) + rest;
    if i == q.len() {
        assert(encode_ops(q, i, prev, cache) == Seq::<u8>::empty());
        assert(decode_ops(bytes, 0, prev, cache) == Some(Seq::<QoiRGBA>::empty()));
        assert(q.skip(i) =~= Seq::<QoiRGBA>::empty());
    } else if q[i] == prev {
        lemma_eq_run_bounds(q, i, prev);
        lemma_eq_run_bounds(q, i + 1, prev);
        lemma_eq_run_members(q, i, prev);
        assert(eq_run(q, i, prev) == 1 + eq_run(q, i + 1, prev));
        let rl = run_take(q, i, prev);
        assert(1 <= rl <= 62);
        assert(i + rl <= q.len());
        assert(forall|j: int| i <= j < i + rl ==> q[j] == prev);
        let b = (192 + rl - 1) as u8;
        let tail_ops = encode_ops(q, i + rl, prev, cache);
        assert(encode_ops(q, i, prev, cache) == seq![b] + tail_ops);
        assert(bytes[0] == b);
        assert(192 <= b <= 253);
        lemma_decode_encode_ops(q, i + rl, prev, cache, rest);
        assert(bytes.skip(1) =~= tail_ops + rest);
        assert(b - 192 + 1 == rl);
        assert(decode_ops(bytes, n, prev, cache) == (match decode_ops(
            bytes.skip(1),
            (n - rl) as nat,
            prev,
            cache,
        ) {
            None => None::<Seq<QoiRGBA>>,
            Some(s) => Some(Seq::new(rl as nat, |t: int| prev) + s),
        }));
        assert(Seq::new(rl as nat, |t: int| prev) + q.skip(i + rl) =~= q.skip(i));
    } else {
        let p = q[i];
        let cache2 = cache_after(p, cache);
        assert(cache2.len() == 64);
        lemma_encode_op_step(q, i, prev, cache);
        let tail_ops = encode_ops(q, i + 1, p, cache2);
        lemma_op_for_decodes(p, prev, cache, tail_ops + rest, n);
        assert(bytes =~= op_for(p, prev, cache) + (tail_ops + rest));
        lemma_decode_encode_ops(q, i + 1, p, cache2, rest);
        assert(seq![p] + q.skip(i + 1) =~= q.skip(i));
    }
}

/// Big-endian bytes of a 32-bit value reassemble to that value.
proof fn lemma_be32_roundtrip(v: int)
    requires
        0 <= v < 0x100000000,
    ensures
        ((v / 0x1000000) % 256) * 0x1000000 + ((v / 0x10000) % 256) * 0x10000 + ((v / 0x100)
            % 256) * 0x100 + (v % 256) == v,
{
    let a1 = v / 0x100;
    let a2 = v / 0x10000;
    let a3 = v / 0x1000000;
    lemma_fundamental_div_mod(v, 0x100);
    lemma_fundamental_div_mod(a1, 0x100);
    lemma_fundamental_div_mod(a2, 0x100);
    lemma_div_denominator(v, 0x100, 0x100);
    assert(a1 / 0x100 == a2);
    lemma_div_denominator(v, 0x10000, 0x100);
    assert(a2 / 0x100 == a3);
    lemma_div_pos_is_pos(v, 0x1000000);
    lemma_div_is_ordered(v, 0xFFFFFFFF, 0x1000000);
    lemma_small_mod(a3 as nat, 256);
}

/// A buffer of `n * count` bytes holds `n` pixels.
proof fn lemma_pixels_of_len(data: Seq<u8>, ch: ChanelMode, n: int)
    requires
        n >= 0,
        data.len() == n * ch.count(),
    ensures
        pixels_of(data, ch).len() == n,
{
    lemma_fundamental_div_mod_converse(data.len() as int, ch.count(), n, 0);
}

/// Lifting a flat buffer to pixels and flattening it again gives the
/// buffer back.
proof fn lemma_bytes_of_pixels_of(data: Seq<u8>, ch: ChanelMode, n: int)
    requires
        n >= 0,
        data.len() == n * ch.count(),
    ensures
        bytes_of(pixels_of(data, ch), ch) == data,
    decreases n,
{
    let c = ch.count();
    let q = pixels_of(data, ch);
    lemma_pixels_of_len(data, ch, n);
    if n == 0 {
        assert(data =~= Seq::<u8>::empty());
        assert(bytes_of(q, ch) =~= Seq::<u8>::empty());
    } else {
        assert((n - 1) * c + c == n * c) by (nonlinear_arith);
        let front = data.take((n - 1) * c);
        let q1 = pixels_of(front, ch);
        lemma_pixels_of_len(front, ch, n - 1);
        assert forall|t: int| 0 <= t < n - 1 implies q1[t] == q[t] by {
            lemma_mul_inequality(t + 1, n - 1, c);
            assert((t + 1) * c == t * c + c) by (nonlinear_arith);
            assert(t * c + c <= (n - 1) * c);
        }
        assert(q1 =~= q.drop_last());
        lemma_bytes_of_pixels_of(front, ch, n - 1);
        assert(q.last() == pixel_at(data, ch, n - 1));
        assert(pixel_bytes(q.last(), ch) =~= data.skip((n - 1) * c));
        assert(bytes_of(q, ch) == bytes_of(q.drop_last(), ch) + pixel_bytes(q.last(), ch));
        assert(front + data.skip((n - 1) * c) =~= data);
    }
}

/// The round-trip law: every pixel buffer that the encoder accepts decodes,
/// from the byte stream the encoder produced, back to exactly the original
/// buffer, and the recovered descriptor matches the original in every
/// field.
pub proof fn lemma_round_trip(data: Seq<u8>, desc: QoiDescriptor)
    requires
        desc.valid_dims(),
        data.len() == desc.width * desc.height * desc.channels.count(),
    ensures
        encode_result(data, desc) is Ok,
        decode_result(encode_result(data, desc)->Ok_0, None) == Ok::<
            (Seq<u8>, QoiDescriptor),
            QoiError,
        >((data, desc)),
{
    let w = desc.width as int;
    let h = desc.height as int;
    let c = desc.channels.count();
    let n = w * h;
    let q = pixels_of(data, desc.channels);
    let header = header_bytes(desc);
    let ops = encode_ops(q, 0, seed_pixel(), fresh_cache());
    let stream = header + ops + stream_tail();
    assert(encode_result(data, desc) == Ok::<Seq<u8>, QoiError>(stream));
    assert(header.len() == 14);
    assert(stream.len() >= 14);
    assert(stream[0] == 113 && stream[1] == 111 && stream[2] == 105 && stream[3] == 102);
    assert(stream.subrange(0, 4) =~= magic_bytes());
    assert(w < 0x100000000 && h < 0x100000000) by (nonlinear_arith)
        requires
            w * h < QOI_PIXELS_MAX,
            w >= 1,
            h >= 1,
    ;
    lemma_be32_roundtrip(w);
    lemma_be32_roundtrip(h);
    lemma_mod_bound(w / 0x1000000, 256);
    lemma_mod_bound(w / 0x10000, 256);
    lemma_mod_bound(w / 0x100, 256);
    lemma_mod_bound(w, 256);
    lemma_mod_bound(h / 0x1000000, 256);
    lemma_mod_bound(h / 0x10000, 256);
    lemma_mod_bound(h / 0x100, 256);
    lemma_mod_bound(h, 256);
    assert(be32_val(stream, 4) == w);
    assert(be32_val(stream, 8) == h);
    assert(stream[12] == c as u8);
    assert(stream[13] == desc.colorspace.tag() as u8);
    assert(fresh_cache().len() == 64);
    lemma_pixels_of_len(data, desc.channels, n);
    assert(stream.skip(14) =~= ops + stream_tail());
    lemma_decode_encode_ops(q, 0, seed_pixel(), fresh_cache(), stream_tail());
    assert(q.skip(0) =~= q);
    assert(decode_ops(stream.skip(14), n as nat, seed_pixel(), fresh_cache()) == Some(q));
    lemma_bytes_of_pixels_of(data, desc.channels, n);
    assert(decode_result(stream, None) == Ok::<(Seq<u8>, QoiDescriptor), QoiError>((data, desc)));
}

/// The fuzz-shaped round trip: any byte buffer whose length is a positive
/// multiple of three, read as one row of RGB pixels, encodes and decodes
/// back to itself.
pub proof fn lemma_rgb_row_round_trip(data: Seq<u8>)
    requires
        data.len() % 3 == 0,
        3 <= data.len(),
        data.len() / 3 < QOI_PIXELS_MAX,
    ensures
        ({
            let desc = QoiDescriptor {
                width: (data.len() as int / 3) as usize,
                height: 1,
                channels: ChanelMode::Rgb,
                colorspace: Colorspace::Linear,
            };
            &&& encode_result(data, desc) is Ok
            &&& decode_result(encode_result(data, desc)->Ok_0, None) == Ok::<
                (Seq<u8>, QoiDescriptor),
                QoiError,
            >((data, desc))
        }),
{
    let wv = data.len() as int / 3;
    lemma_fundamental_div_mod(data.len() as int, 3);
    lemma_div_is_ordered(3, data.len() as int, 3);
    assert(wv * 1 * 3 == 3 * wv) by (nonlinear_arith);
    assert(wv * 1 < QOI_PIXELS_MAX) by (nonlinear_arith)
        requires
            wv < QOI_PIXELS_MAX,
    ;
    let desc = QoiDescriptor {
        width: wv as usize,
        height: 1,
        channels: ChanelMode::Rgb,
        colorspace: Colorspace::Linear,
    };
    lemma_round_trip(data, desc);
}

/// A full run of 62 identical pixels followed by a differing pixel emits
/// exactly one run byte, whose low six bits hold 61, and then the
/// differing pixel's own op.
pub proof fn lemma_full_run_then_differing(
    px: Seq<QoiRGBA>,
    i: int,
    prev: QoiRGBA,
    cache: Seq<QoiRGBA>,
)
    requires
        0 <= i,
        i + 62 < px.len(),
        forall|j: int| i <= j < i + 62 ==> px[j] == prev,
        px[i + 62] != prev,
    ensures
        encode_ops(px, i, prev, cache) == seq![253u8] + (op_for(px[i + 62], prev, cache)
            + encode_ops(px, i + 63, px[i + 62], cache_after(px[i + 62], cache))),
{
    lemma_encode_run_step(px, i, prev, cache, 62);
    lemma_encode_op_step(px, i + 62, prev, cache);
}

/// A buffer whose last pixels continue a run still flushes that run: the
/// op stream ends with one run byte counting the trailing pixels.
pub proof fn lemma_run_flushed_at_stream_end(
    px: Seq<QoiRGBA>,
    i: int,
    prev: QoiRGBA,
    cache: Seq<QoiRGBA>,
)
    requires
        0 <= i < px.len(),
        px.len() - i <= 62,
        forall|j: int| i <= j < px.len() ==> px[j] == prev,
    ensures
        encode_ops(px, i, prev, cache) == seq![(192 + (px.len() - i) - 1) as u8],
{
    let k = px.len() - i;
    lemma_encode_run_step(px, i, prev, cache, k);
    assert(encode_ops(px, px.len() as int, prev, cache) == Seq::<u8>::empty());
    assert(seq![(192 + k - 1) as u8] + Seq::<u8>::empty() =~= seq![(192 + k - 1) as u8]);
}

/// Priority of the cache over the diff path: a pixel that both matches its
/// cache slot and lies within the diff bounds is emitted as a cache-index
/// op, not as a diff op.
pub proof fn lemma_cache_hit_priority(p: QoiRGBA, prev: QoiRGBA, cache: Seq<QoiRGBA>)
    requires
        cache[cache_slot(p)] == p,
        p.a == prev.a,
        near2(byte_sub(p.r, prev.r)),
        near2(byte_sub(p.g, prev.g)),
        near2(byte_sub(p.b, prev.b)),
    ensures
        op_for(p, prev, cache) == seq![cache_slot(p) as u8],
{
}

} // verus!
