use qoi::decoder::{DecoderError, QoiDecoder, QoiReader};
use qoi::encoder::QoiEncoder;

#[test]
fn test_rle_decoding() {
    // 254 is a raw RGB chunk, the last byte a run chunk
    let img = Vec::from([254, 100, 100, 0, 0b1100_0000 | (3 - 1)]);
    let mut decoder = QoiReader::new(img, 3);

    let mut buf = vec![0u8; 12];
    decoder.read(&mut buf).unwrap();

    assert!(buf == [100, 100, 0, 100, 100, 0, 100, 100, 0, 100, 100, 0])
}

fn decode_all(bytes: Vec<u8>) -> (u32, u32, u8, Vec<u8>) {
    let decoder = QoiDecoder::new(bytes).unwrap();
    let (w, h) = decoder.dimensions();
    let channels = decoder.channels();
    let mut reader = decoder.into_reader();
    let mut out = vec![0u8; (w * h * channels as u32) as usize];
    let n = reader.read(&mut out).unwrap();
    assert_eq!(n, out.len());
    (w, h, channels, out)
}

#[test]
fn round_trip_rgb() {
    let mut bytes = Vec::new();
    for i in 0..60u32 {
        let v = (i * 37 % 256) as u8;
        bytes.extend_from_slice(&[v, v / 2, 255 - v]);
        if i % 7 == 0 {
            bytes.extend_from_slice(&[v, v / 2, 255 - v]);
            bytes.extend_from_slice(&[v, v / 2, 255 - v]);
        }
        bytes.extend_from_slice(&[v.wrapping_add(1), v / 2, 255 - v]);
    }
    let n = bytes.len() / 3;
    let encoded = QoiEncoder::new(Vec::new())
        .write_image(&bytes, n as u32, 1, 3)
        .unwrap();
    let (w, h, c, out) = decode_all(encoded);
    assert_eq!((w, h, c), (n as u32, 1, 3));
    assert_eq!(out, bytes);
}

#[test]
fn round_trip_rgba() {
    let mut bytes = Vec::new();
    for i in 0..80u32 {
        let v = (i * 11 % 256) as u8;
        let a = if i % 5 == 0 { 128 } else { 255 };
        bytes.extend_from_slice(&[v, v.wrapping_mul(3), 7, a]);
        bytes.extend_from_slice(&[0, 0, 0, 0]);
    }
    let n = bytes.len() / 4;
    let encoded = QoiEncoder::new(Vec::new())
        .write_image(&bytes, 4, (n / 4) as u32, 4)
        .unwrap();
    let (_, _, c, out) = decode_all(encoded);
    assert_eq!(c, 4);
    assert_eq!(out, bytes);
}

#[test]
fn runs_of_every_length_round_trip() {
    for len in 2..=200usize {
        let mut bytes = vec![1u8, 2, 3];
        for _ in 0..len {
            bytes.extend_from_slice(&[9, 9, 9]);
        }
        bytes.extend_from_slice(&[50, 60, 70]);
        let n = bytes.len() / 3;
        let encoded = QoiEncoder::new(Vec::new())
            .write_image(&bytes, n as u32, 1, 3)
            .unwrap();
        let (_, _, _, out) = decode_all(encoded);
        assert_eq!(out, bytes, "run of {}", len);
    }
}

#[test]
fn reader_serves_pixels_in_pieces() {
    let img = Vec::from([254, 100, 100, 0, 0b1100_0000 | 4]);
    let mut reader = QoiReader::new(img, 3);
    let mut a = vec![0u8; 7];
    assert_eq!(reader.read(&mut a), Ok(6));
    assert_eq!(a, vec![100, 100, 0, 100, 100, 0, 0]);
    let mut b = vec![0u8; 12];
    assert_eq!(reader.read(&mut b), Ok(12));
    assert_eq!(b, vec![100, 100, 0, 100, 100, 0, 100, 100, 0, 100, 100, 0]);
    let mut c = vec![0u8; 3];
    assert_eq!(reader.read(&mut c), Err(DecoderError::Truncated));
}

#[test]
fn truncated_chunk_is_an_error() {
    let img = Vec::from([254, 100, 100]);
    let mut reader = QoiReader::new(img, 3);
    let mut buf = vec![0u8; 3];
    assert_eq!(reader.read(&mut buf), Err(DecoderError::Truncated));
}

#[test]
fn short_header_is_refused() {
    let r = QoiDecoder::new(vec![b'q', b'o', b'i', b'f', 0, 0]);
    assert!(matches!(r, Err(DecoderError::HeaderTooSmall)));
}

#[test]
fn bad_magic_is_refused() {
    let mut bytes = b"qoix".to_vec();
    bytes.extend_from_slice(&[0, 0, 0, 1, 0, 0, 0, 1, 3, 0]);
    assert!(matches!(QoiDecoder::new(bytes), Err(DecoderError::InvalidHeader)));
}

#[test]
fn bad_channel_count_is_refused() {
    let mut bytes = b"qoif".to_vec();
    bytes.extend_from_slice(&[0, 0, 0, 1, 0, 0, 0, 1, 5, 0]);
    assert!(matches!(QoiDecoder::new(bytes), Err(DecoderError::InvalidHeader)));
}

#[test]
fn header_fields_are_read() {
    let mut bytes = b"qoif".to_vec();
    bytes.extend_from_slice(&[0, 0, 1, 2, 0, 3, 0, 4, 4, 0]);
    let d = QoiDecoder::new(bytes).unwrap();
    assert_eq!(d.dimensions(), (258, 0x30004));
    assert_eq!(d.channels(), 4);
}

#[test]
fn valid_header_is_accepted() {
    let bytes = vec![0x71, 0x6f, 0x69, 0x66, 0, 0, 0, 2, 0, 0, 0, 3, 4, 0];
    let d = QoiDecoder::new(bytes).unwrap();
    assert_eq!(d.dimensions(), (2, 3));
    assert_eq!(d.channels(), 4);
}
