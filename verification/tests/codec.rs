use qoi_codec::{color_hash, qoi_decode, qoi_encode, ChanelMode, Colorspace, QoiDescriptor, QoiRGBA};

#[test]
fn inverse_application_test() {
    let pixels = [255, 0, 0, 15, 1, 255, 255, 255, 191, 255, 0, 0, 15, 1, 74];
    let desc = QoiDescriptor {
        width: pixels.len() / 3,
        height: 1,
        channels: ChanelMode::Rgb,
        colorspace: Colorspace::Linear,
    };
    let bytes = qoi_encode(&pixels, &desc).unwrap();
    let (pixels_, _desc) = qoi_decode(&bytes, None).unwrap();
    assert_eq!(pixels_, pixels);
}

#[test]
fn indexing_simple() {
    let pixels = [0, 0, 1, 0, 0, 0, 0, 0, 1];
    let desc = QoiDescriptor {
        width: pixels.len() / 3,
        height: 1,
        channels: ChanelMode::Rgb,
        colorspace: Colorspace::Linear,
    };
    let bytes = qoi_encode(&pixels, &desc).unwrap();
    let (pixels_, _desc) = qoi_decode(&bytes, None).unwrap();
    assert_eq!(pixels_, pixels);
}

#[test]
fn first_pixel_zero() {
    let pixels = [0, 0, 0, 0, 0, 1];
    let desc = QoiDescriptor {
        width: pixels.len() / 3,
        height: 1,
        channels: ChanelMode::Rgb,
        colorspace: Colorspace::Linear,
    };
    let bytes = qoi_encode(&pixels, &desc).unwrap();
    let (pixels_decoded, _desc) = qoi_decode(&bytes, None).unwrap();
    assert_eq!(pixels_decoded, pixels);
}

fn rgb_row_descriptor(pixels: &[u8]) -> QoiDescriptor {
    QoiDescriptor {
        width: pixels.len() / 3,
        height: 1,
        channels: ChanelMode::Rgb,
        colorspace: Colorspace::Linear,
    }
}

#[test]
fn concrete_scenario_stream_layout() {
    // Five RGB pixels, width 5, height 1, linear colorspace: the stream
    // must open with the magic, big-endian dimensions and the two mode
    // bytes, and close with the 8-byte padding; decoding it must give the
    // original 15 bytes back.
    let pixels = [255, 0, 0, 15, 1, 255, 255, 255, 191, 255, 0, 0, 15, 1, 74];
    let desc = rgb_row_descriptor(&pixels);
    let bytes = qoi_encode(&pixels, &desc).unwrap();
    assert_eq!(
        &bytes[..14],
        &[
            b'q', b'o', b'i', b'f', 0x00, 0x00, 0x00, 0x05, 0x00, 0x00, 0x00, 0x01, 0x03, 0x01
        ]
    );
    assert_eq!(&bytes[bytes.len() - 8..], &[0, 0, 0, 0, 0, 0, 0, 1]);
    let (pixels_, desc_) = qoi_decode(&bytes, None).unwrap();
    assert_eq!(pixels_, pixels);
    assert_eq!(desc_, desc);
}

#[test]
fn run_of_62_emits_single_run_byte() {
    // One leading pixel, then 62 identical copies, then a differing pixel:
    // the 62 copies become exactly one run byte whose low six bits are 61.
    let mut pixels = vec![10, 10, 10];
    for _ in 0..62 {
        pixels.extend_from_slice(&[10, 10, 10]);
    }
    pixels.extend_from_slice(&[10, 10, 11]);
    let desc = rgb_row_descriptor(&pixels);
    let bytes = qoi_encode(&pixels, &desc).unwrap();
    // header (14) + luma op for (10,10,10) (2 bytes) + run byte + diff op + padding (8)
    assert_eq!(bytes.len(), 14 + 2 + 1 + 1 + 8);
    assert_eq!(bytes[16], 0xC0 | 61);
    assert_eq!(bytes[16] & 0x3F, 61);
    let (pixels_, _) = qoi_decode(&bytes, None).unwrap();
    assert_eq!(pixels_, pixels);
}

#[test]
fn long_run_splits_at_62() {
    // 100 identical pixels: one op for the first, a full run byte for the
    // next 62, and a second run byte for the remaining 37.
    let pixels = vec![10u8; 300];
    let desc = rgb_row_descriptor(&pixels);
    let bytes = qoi_encode(&pixels, &desc).unwrap();
    assert_eq!(bytes.len(), 14 + 2 + 1 + 1 + 8);
    assert_eq!(bytes[16], 0xC0 | 61);
    assert_eq!(bytes[17], 0xC0 | 36);
    let (pixels_, _) = qoi_decode(&bytes, None).unwrap();
    assert_eq!(pixels_, pixels);
}

#[test]
fn run_flushed_at_stream_end() {
    // A buffer whose last pixels continue a run still flushes the run.
    let pixels = [10, 10, 10, 10, 10, 10, 10, 10, 10];
    let desc = rgb_row_descriptor(&pixels);
    let bytes = qoi_encode(&pixels, &desc).unwrap();
    let expected = vec![
        b'q', b'o', b'i', b'f', 0x00, 0x00, 0x00, 0x03, 0x00, 0x00, 0x00, 0x01, 0x03, 0x01,
        0xAA, 0x88, // luma op for (10,10,10) against the seed pixel
        0xC1, // run of the two trailing copies
        0, 0, 0, 0, 0, 0, 0, 1,
    ];
    assert_eq!(bytes, expected);
    let (pixels_, _) = qoi_decode(&bytes, None).unwrap();
    assert_eq!(pixels_, pixels);
}

#[test]
fn cache_hit_takes_priority_over_diff() {
    // The third pixel equals the first, so it sits in the cache, and it is
    // also within the diff bounds of the second pixel. The cache-index op
    // (top two bits 00) must win.
    let pixels = [10, 10, 10, 11, 11, 11, 10, 10, 10];
    let desc = rgb_row_descriptor(&pixels);
    let bytes = qoi_encode(&pixels, &desc).unwrap();
    // header + luma(10,10,10) + diff(11,11,11) + index + padding
    assert_eq!(bytes.len(), 14 + 2 + 1 + 1 + 8);
    assert_eq!(bytes[16], 0x7F); // diff op, all deltas +1
    assert_eq!(bytes[17] & 0xC0, 0x00); // cache-index op
    assert_eq!(bytes[17], 11); // slot of (10,10,10,255)
    let (pixels_, _) = qoi_decode(&bytes, None).unwrap();
    assert_eq!(pixels_, pixels);
}

#[test]
fn rgba_round_trip_with_alpha_change() {
    let pixels = [255, 0, 0, 255, 255, 0, 0, 128, 255, 0, 0, 128];
    let desc = QoiDescriptor {
        width: 3,
        height: 1,
        channels: ChanelMode::Rgba,
        colorspace: Colorspace::Srgb,
    };
    let bytes = qoi_encode(&pixels, &desc).unwrap();
    assert!(bytes.contains(&0xFF_u8)); // the alpha change forces a full RGBA op
    let (pixels_, desc_) = qoi_decode(&bytes, None).unwrap();
    assert_eq!(pixels_, pixels);
    assert_eq!(desc_.channels, ChanelMode::Rgba);
}

#[test]
fn forced_channel_mode_wins_over_header() {
    // An RGB stream decoded with a forced RGBA mode yields 4-byte pixels
    // with alpha 255.
    let pixels = [1, 2, 3];
    let desc = rgb_row_descriptor(&pixels);
    let bytes = qoi_encode(&pixels, &desc).unwrap();
    let (pixels_, desc_) = qoi_decode(&bytes, Some(ChanelMode::Rgba)).unwrap();
    assert_eq!(pixels_, vec![1, 2, 3, 255]);
    assert_eq!(desc_.channels, ChanelMode::Rgba);
}

#[test]
fn color_hash_matches_formula() {
    // hash = r*3 + g*5 + b*7 + a*11
    assert_eq!(color_hash(QoiRGBA::new(0, 0, 0, 255)), 2805);
    assert_eq!(color_hash(QoiRGBA::new(10, 10, 10, 255)), 2955);
    assert_eq!(color_hash(QoiRGBA::new(0, 0, 0, 0)), 0);
}

#[test]
fn index_op_reads_initial_cache() {
    // An index op into a slot nothing has written yet yields the all-zero
    // pixel the cache starts out with.
    let stream = [
        b'q', b'o', b'i', b'f', 0, 0, 0, 1, 0, 0, 0, 1, 4, 0, // header: 1x1 RGBA sRGB
        53, // cache-index op for an untouched slot
        0, 0, 0, 0, 0, 0, 0, 1,
    ];
    let (pixels, _) = qoi_decode(&stream, None).unwrap();
    assert_eq!(pixels, vec![0, 0, 0, 0]);
}

#[test]
fn arbitrary_rgb_bytes_round_trip() {
    // Any byte buffer with a length that is a multiple of three survives
    // the round trip when read as one row of RGB pixels.
    let mut pixels: Vec<u8> = Vec::new();
    let mut state: u32 = 0x12345678;
    for _ in 0..999 {
        state = state.wrapping_mul(1664525).wrapping_add(1013904223);
        pixels.push((state >> 24) as u8);
    }
    let desc = rgb_row_descriptor(&pixels);
    let bytes = qoi_encode(&pixels, &desc).unwrap();
    let (pixels_, _) = qoi_decode(&bytes, None).unwrap();
    assert_eq!(pixels_, pixels);
}
