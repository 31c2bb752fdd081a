//! Header, encoder, and decoder tests.

use mpic::{DecodeError, Decoder, EncodeError, Encoder, FileHeader, PREFERRED_FILE_EXT};

fn solid_image(w: usize, h: usize, rgb: (u8, u8, u8)) -> Vec<u8> {
    let mut data = Vec::new();
    for _ in 0..w * h {
        data.push(rgb.0);
        data.push(rgb.1);
        data.push(rgb.2);
    }
    data
}

#[test]
fn preferred_extension() {
    assert_eq!(PREFERRED_FILE_EXT, "mpic");
}

#[test]
fn header_accepts_aligned_dimensions() {
    let h = FileHeader::new(8, 16).unwrap();
    assert!(h.is_valid());
    assert_eq!(h.version().0, 0);
    let info = h.info();
    assert_eq!(info.width(), 8);
    assert_eq!(info.height(), 16);
}

#[test]
fn header_rejects_bad_dimensions() {
    assert!(FileHeader::new(0, 8).is_none());
    assert!(FileHeader::new(8, 0).is_none());
    assert!(FileHeader::new(12, 8).is_none());
    assert!(FileHeader::new(8, 9).is_none());
    assert!(FileHeader::new(65536, 8).is_none());
    assert!(FileHeader::new(8, 70000).is_none());
    assert!(FileHeader::new(65528, 65528).is_some());
}

#[test]
fn header_bytes_round_trip() {
    let h = FileHeader::new(520, 64).unwrap();
    let bytes = h.bytes();
    assert_eq!(bytes.len(), FileHeader::MINIMAL_SIZE);
    assert_eq!(&bytes[0..4], &[0x00, 0x6d, 0x70, 0x69]);
    assert_eq!(&bytes[4..6], &[0x08, 0x02]);
    assert_eq!(&bytes[6..8], &[0x40, 0x00]);
    assert_eq!(bytes[8], 0x00);
    let back = FileHeader::from_bytes(bytes.as_slice()).unwrap();
    assert_eq!(back.info().width(), 520);
    assert_eq!(back.info().height(), 64);
}

#[test]
fn header_from_bytes_rejects_malformed_input() {
    assert!(FileHeader::from_bytes(&[]).is_none());
    assert!(FileHeader::from_bytes(&[0x00, 0x6d, 0x70, 0x69]).is_none());
    // wrong magic
    assert!(
        FileHeader::from_bytes(&[0xFF, 0x6d, 0x70, 0x69, 8, 0, 8, 0, 0]).is_none()
    );
    // wrong version
    assert!(
        FileHeader::from_bytes(&[0x00, 0x6d, 0x70, 0x69, 8, 0, 8, 0, 1]).is_none()
    );
    // width not a multiple of 8
    assert!(
        FileHeader::from_bytes(&[0x00, 0x6d, 0x70, 0x69, 9, 0, 8, 0, 0]).is_none()
    );
    // zero height
    assert!(
        FileHeader::from_bytes(&[0x00, 0x6d, 0x70, 0x69, 8, 0, 0, 0, 0]).is_none()
    );
    assert!(
        FileHeader::from_bytes(&[0x00, 0x6d, 0x70, 0x69, 8, 0, 8, 0, 0]).is_some()
    );
}

#[test]
fn encode_rejects_bad_geometry() {
    let data = solid_image(8, 8, (1, 2, 3));
    assert_eq!(
        Encoder::encode(&data, 12, 8),
        Err(EncodeError::InvalidInput)
    );
    assert_eq!(Encoder::encode(&data, 0, 8), Err(EncodeError::InvalidInput));
    assert_eq!(
        Encoder::encode(&data, 8, 65536),
        Err(EncodeError::InvalidInput)
    );
}

#[test]
fn encode_rejects_short_buffer() {
    let data = solid_image(8, 8, (1, 2, 3));
    assert_eq!(
        Encoder::encode(&data[..100], 8, 8),
        Err(EncodeError::InvalidInput)
    );
}

#[test]
fn solid_red_image_round_trips_within_tolerance() {
    let data = solid_image(8, 8, (255, 0, 0));
    let encoded = Encoder::encode(&data, 8, 8).unwrap();

    // header, one length byte, and one small chunk
    assert_eq!(encoded.len(), 9 + 1 + encoded[9] as usize);
    assert!((encoded[9] as usize) < 72);

    let decoder = Decoder::new(encoded.as_slice()).unwrap();
    assert_eq!(decoder.info().width(), 8);
    assert_eq!(decoder.info().height(), 8);

    let decoded = decoder.decode().unwrap();
    assert_eq!(decoded.len(), 192);
    for pix in decoded.chunks(3) {
        assert!((pix[0] as i32 - 255).abs() <= 12);
        assert!((pix[1] as i32 - 0).abs() <= 12);
        assert!((pix[2] as i32 - 0).abs() <= 12);
    }
}

#[test]
fn solid_red_chunk_bytes() {
    let data = solid_image(8, 8, (255, 0, 0));
    let encoded = Encoder::encode(&data, 8, 8).unwrap();
    assert_eq!(
        encoded.as_slice(),
        &[
            0x00, 0x6d, 0x70, 0x69, 8, 0, 8, 0, 0, // header
            9,    // chunk length
            20, 124, 0, 22, 76, 0, 60, 76, 0, // one literal and a run per plane
        ]
    );
}

#[test]
fn corrupted_magic_yields_no_decoder() {
    let data = solid_image(8, 8, (255, 0, 0));
    let mut encoded = Encoder::encode(&data, 8, 8).unwrap();
    encoded[0] = 0xFF;
    assert!(Decoder::new(encoded.as_slice()).is_none());
}

#[test]
fn corrupted_version_yields_no_decoder() {
    let data = solid_image(8, 8, (0, 128, 255));
    let mut encoded = Encoder::encode(&data, 8, 8).unwrap();
    encoded[8] = 1;
    assert!(Decoder::new(encoded.as_slice()).is_none());
}

#[test]
fn truncated_stream_is_invalid_data() {
    let data = solid_image(16, 16, (10, 200, 30));
    let encoded = Encoder::encode(&data, 16, 16).unwrap();
    let decoder = Decoder::new(&encoded[..12]).unwrap();
    assert_eq!(decoder.decode(), Err(DecodeError::InvalidData));
}

#[test]
fn corrupted_chunk_is_invalid_data() {
    let data = solid_image(8, 8, (10, 200, 30));
    let mut encoded = Encoder::encode(&data, 8, 8).unwrap();
    // a reserved opcode inside the only chunk
    encoded[10] = 0x80;
    let decoder = Decoder::new(encoded.as_slice()).unwrap();
    assert_eq!(decoder.decode(), Err(DecodeError::InvalidData));
}

#[test]
fn decode_to_slice_rejects_short_buffer() {
    let data = solid_image(8, 8, (1, 2, 3));
    let encoded = Encoder::encode(&data, 8, 8).unwrap();
    let decoder = Decoder::new(encoded.as_slice()).unwrap();
    let mut out = vec![0u8; 191];
    assert_eq!(
        decoder.decode_to_slice(out.as_mut_slice()),
        Err(DecodeError::InvalidInput)
    );
}

#[test]
fn decode_to_slice_matches_decode() {
    let data = solid_image(16, 8, (90, 12, 230));
    let encoded = Encoder::encode(&data, 16, 8).unwrap();
    let decoder = Decoder::new(encoded.as_slice()).unwrap();
    let pulled = decoder.decode().unwrap();
    let mut pushed = vec![0u8; 16 * 8 * 3 + 5];
    decoder.decode_to_slice(pushed.as_mut_slice()).unwrap();
    assert_eq!(&pushed[..16 * 8 * 3], pulled.as_slice());
    // bytes beyond the image are untouched
    assert_eq!(&pushed[16 * 8 * 3..], &[0u8; 5]);
}

#[test]
fn decode_rgba_sets_opaque_alpha() {
    let data = solid_image(8, 8, (255, 0, 0));
    let encoded = Encoder::encode(&data, 8, 8).unwrap();
    let decoder = Decoder::new(encoded.as_slice()).unwrap();
    let rgb = decoder.decode().unwrap();
    let rgba = decoder.decode_rgba().unwrap();
    assert_eq!(rgba.len(), 256);
    for i in 0..64 {
        assert_eq!(rgba[i * 4], rgb[i * 3]);
        assert_eq!(rgba[i * 4 + 1], rgb[i * 3 + 1]);
        assert_eq!(rgba[i * 4 + 2], rgb[i * 3 + 2]);
        assert_eq!(rgba[i * 4 + 3], 255);
    }
}

#[test]
fn multi_block_image_round_trips_in_block_order() {
    // a 16x16 image with a different color per 8x8 block
    let colors = [(255u8, 0u8, 0u8), (0, 255, 0), (0, 0, 255), (255, 255, 255)];
    let mut data = vec![0u8; 16 * 16 * 3];
    for y in 0..16 {
        for x in 0..16 {
            let c = colors[(y / 8) * 2 + x / 8];
            let o = (y * 16 + x) * 3;
            data[o] = c.0;
            data[o + 1] = c.1;
            data[o + 2] = c.2;
        }
    }
    let encoded = Encoder::encode(&data, 16, 16).unwrap();
    let decoder = Decoder::new(encoded.as_slice()).unwrap();
    let decoded = decoder.decode().unwrap();
    assert_eq!(decoded.len(), 16 * 16 * 3);
    for y in 0..16 {
        for x in 0..16 {
            let c = colors[(y / 8) * 2 + x / 8];
            let o = (y * 16 + x) * 3;
            assert!((decoded[o] as i32 - c.0 as i32).abs() <= 12);
            assert!((decoded[o + 1] as i32 - c.1 as i32).abs() <= 12);
            assert!((decoded[o + 2] as i32 - c.2 as i32).abs() <= 12);
        }
    }
}

#[test]
fn encode_to_writer_hands_out_the_encoded_stream() {
    let data = solid_image(8, 8, (33, 66, 99));
    let encoded = Encoder::encode(&data, 8, 8).unwrap();
    let cell = std::cell::RefCell::new(Vec::new());
    Encoder::encode_to_writer(&data, 8, 8, |v: &[u8]| {
        cell.borrow_mut().extend_from_slice(v);
    })
    .unwrap();
    assert_eq!(cell.into_inner(), encoded);
}

#[test]
fn decode_callback_visits_every_pixel() {
    let data = solid_image(16, 8, (40, 80, 120));
    let encoded = Encoder::encode(&data, 16, 8).unwrap();
    let decoder = Decoder::new(encoded.as_slice()).unwrap();
    let expected = decoder.decode().unwrap();
    let seen = std::cell::RefCell::new(vec![0u8; 16 * 8 * 3]);
    let count = std::cell::Cell::new(0usize);
    decoder
        .decode_callback(&|x: u32, y: u32, rgb: mpic::color::MpicRgb888| {
            let o = (y as usize * 16 + x as usize) * 3;
            let mut buf = seen.borrow_mut();
            buf[o] = rgb.r;
            buf[o + 1] = rgb.g;
            buf[o + 2] = rgb.b;
            count.set(count.get() + 1);
        })
        .unwrap();
    assert_eq!(count.get(), 16 * 8);
    assert_eq!(seen.into_inner(), expected);
}

#[test]
fn decode_callback_reports_bad_streams() {
    let data = solid_image(8, 8, (1, 1, 1));
    let encoded = Encoder::encode(&data, 8, 8).unwrap();
    let decoder = Decoder::new(&encoded[..10]).unwrap();
    let r = decoder.decode_callback(&|_x: u32, _y: u32, _rgb: mpic::color::MpicRgb888| {});
    assert_eq!(r, Err(DecodeError::InvalidData));
}

#[test]
fn decode_chunk_splits_and_demosaics() {
    // a payload with distinct plane values: Y rising, U and V constant
    let mut payload = Vec::new();
    for i in 0..64u8 {
        payload.push(i % 64);
    }
    for _ in 0..16 {
        payload.push(7);
    }
    for _ in 0..16 {
        payload.push(9);
    }
    let packed = mpic::chunk::compress(&payload);
    let (buf_y, buf_u, buf_v) = Decoder::decode_chunk(packed.as_slice()).unwrap();
    assert_eq!(buf_y.len(), 64);
    for i in 0..64 {
        assert_eq!(buf_y[i], (i % 64) as u8);
    }
    assert_eq!(buf_u, vec![7u8; 64]);
    assert_eq!(buf_v, vec![9u8; 64]);
}

#[test]
fn decode_chunk_rejects_bad_sizes() {
    assert!(Decoder::decode_chunk(&[1, 2, 3]).is_err());
}

#[test]
fn encode_chunk_matches_compress() {
    let buf_y = vec![20u8; 64];
    let buf_u = vec![22u8; 64];
    let buf_v = vec![60u8; 64];
    let chunk = Encoder::encode_chunk(&buf_y, &buf_u, &buf_v);
    assert_eq!(
        chunk.as_slice(),
        &[20, 124, 0, 22, 76, 0, 60, 76, 0]
    );
}
