use qoi_codec::{qoi_decode, qoi_encode, ChanelMode, Colorspace, QoiDescriptor, QoiError};

fn header(w: u32, h: u32, chan: u8, cs: u8) -> Vec<u8> {
    let mut v = vec![b'q', b'o', b'i', b'f'];
    v.extend_from_slice(&[
        (w >> 24) as u8,
        (w >> 16) as u8,
        (w >> 8) as u8,
        w as u8,
        (h >> 24) as u8,
        (h >> 16) as u8,
        (h >> 8) as u8,
        h as u8,
        chan,
        cs,
    ]);
    v
}

#[test]
fn encode_rejects_zero_width() {
    let desc = QoiDescriptor {
        width: 0,
        height: 1,
        channels: ChanelMode::Rgb,
        colorspace: Colorspace::Srgb,
    };
    assert_eq!(qoi_encode(&[], &desc), Err(QoiError::ZeroDimension));
}

#[test]
fn encode_rejects_zero_height() {
    let desc = QoiDescriptor {
        width: 1,
        height: 0,
        channels: ChanelMode::Rgba,
        colorspace: Colorspace::Linear,
    };
    assert_eq!(qoi_encode(&[], &desc), Err(QoiError::ZeroDimension));
}

#[test]
fn decode_rejects_bad_magic() {
    let mut stream = header(1, 1, 3, 0);
    stream[0] = b'x';
    stream.extend_from_slice(&[0xFE, 1, 2, 3, 0, 0, 0, 0, 0, 0, 0, 1]);
    assert_eq!(qoi_decode(&stream, None), Err(QoiError::BadMagic));
}

#[test]
fn decode_rejects_bad_channel_count() {
    let mut stream = header(1, 1, 5, 0);
    stream.extend_from_slice(&[0xFE, 1, 2, 3, 0, 0, 0, 0, 0, 0, 0, 1]);
    assert_eq!(qoi_decode(&stream, None), Err(QoiError::BadChannelCount));
}

#[test]
fn forced_mode_ignores_channel_byte() {
    // The same stream with an out-of-range channel byte decodes fine when
    // the caller forces a mode.
    let mut stream = header(1, 1, 5, 0);
    stream.extend_from_slice(&[0xFE, 1, 2, 3, 0, 0, 0, 0, 0, 0, 0, 1]);
    let (pixels, desc) = qoi_decode(&stream, Some(ChanelMode::Rgb)).unwrap();
    assert_eq!(pixels, vec![1, 2, 3]);
    assert_eq!(desc.channels, ChanelMode::Rgb);
}

#[test]
fn decode_rejects_bad_colorspace() {
    let mut stream = header(1, 1, 3, 7);
    stream.extend_from_slice(&[0xFE, 1, 2, 3, 0, 0, 0, 0, 0, 0, 0, 1]);
    assert_eq!(qoi_decode(&stream, None), Err(QoiError::BadColorspace));
}

#[test]
fn decode_rejects_zero_dimension() {
    let mut stream = header(0, 7, 3, 0);
    stream.extend_from_slice(&[0, 0, 0, 0, 0, 0, 0, 1]);
    assert_eq!(qoi_decode(&stream, None), Err(QoiError::ZeroDimension));
}

#[test]
fn decode_rejects_too_many_pixels() {
    // 20000 * 20000 = 400 million pixels, exactly the limit.
    let stream = header(20000, 20000, 3, 0);
    assert_eq!(qoi_decode(&stream, None), Err(QoiError::TooManyPixels));
}

#[test]
fn decode_rejects_truncated_header() {
    assert_eq!(qoi_decode(b"qo", None), Err(QoiError::UnexpectedEnd));
    assert_eq!(qoi_decode(b"qoif\x00\x00", None), Err(QoiError::UnexpectedEnd));
}

#[test]
fn decode_rejects_truncated_ops() {
    // A valid header for one pixel, but no op bytes at all.
    let stream = header(1, 1, 3, 0);
    assert_eq!(qoi_decode(&stream, None), Err(QoiError::UnexpectedEnd));
    // An RGB op missing its blue byte.
    let mut stream = header(1, 1, 3, 0);
    stream.extend_from_slice(&[0xFE, 1, 2]);
    assert_eq!(qoi_decode(&stream, None), Err(QoiError::UnexpectedEnd));
    // A luma op missing its second byte.
    let mut stream = header(1, 1, 3, 0);
    stream.extend_from_slice(&[0x80]);
    assert_eq!(qoi_decode(&stream, None), Err(QoiError::UnexpectedEnd));
}

#[test]
fn decode_ignores_missing_padding() {
    // The trailing padding is conventional: a stream without it still
    // decodes once every pixel slot is filled.
    let mut stream = header(1, 1, 3, 1);
    stream.extend_from_slice(&[0xFE, 9, 8, 7]);
    let (pixels, desc) = qoi_decode(&stream, None).unwrap();
    assert_eq!(pixels, vec![9, 8, 7]);
    assert_eq!(desc.colorspace, Colorspace::Linear);
}
