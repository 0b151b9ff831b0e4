use qoi::encoder::QoiEncoder;

fn strip(buf: &[u8]) -> Vec<u8> {
    // 14 byte header and 8 byte footer
    buf[14..(buf.len() - 8)].to_vec()
}

fn encode_rgb_image(img: &[(u8, u8, u8)]) -> Vec<u8> {
    let bytes: Vec<u8> = img.iter().flat_map(|&(r, g, b)| vec![r, g, b]).collect();
    let out = QoiEncoder::new(Vec::new())
        .write_image(&bytes, 2, 2, 3)
        .unwrap();
    strip(&out)
}

#[test]
fn test_rle_rgb() {
    let img = [(100, 100, 0), (100, 100, 0), (100, 100, 0), (100, 100, 0)];
    let pixel_buf = encode_rgb_image(&img);
    // 254 is a raw RGB chunk, the last byte a run chunk
    assert!(pixel_buf == [254, 100, 100, 0, 0b1100_0000 | (3 - 1)])
}

#[test]
fn test_only_pixels_rgb() {
    let img = [(100, 100, 0), (150, 100, 0), (100, 150, 0), (150, 150, 0)];
    let pixel_buf = encode_rgb_image(&img);
    assert!(
        pixel_buf == [254, 100, 100, 0, 254, 150, 100, 0, 254, 100, 150, 0, 254, 150, 150, 0]
    )
}

#[test]
fn test_indexing() {
    let img = [(100, 100, 0), (150, 100, 0), (100, 100, 0), (150, 100, 0)];
    let pixel_buf = encode_rgb_image(&img);
    // two raw chunks, then index references to slots 21 and 43
    assert!(pixel_buf == [254, 100, 100, 0, 254, 150, 100, 0, 21, 43])
}

#[test]
fn header_and_footer_are_framed() {
    let bytes = vec![1u8, 2, 3, 4, 5, 6];
    let out = QoiEncoder::new(Vec::new()).write_image(&bytes, 2, 1, 3).unwrap();
    assert_eq!(&out[0..4], b"qoif");
    assert_eq!(&out[4..8], &[0, 0, 0, 2]);
    assert_eq!(&out[8..12], &[0, 0, 0, 1]);
    assert_eq!(out[12], 3);
    assert_eq!(out[13], 0);
    assert_eq!(&out[out.len() - 8..], &[0, 0, 0, 0, 0, 0, 0, 1]);
}

#[test]
fn header_holds_large_dimensions_big_endian() {
    let mut e = QoiEncoder::new(Vec::new());
    e.encode(&[], 0x0102_0304, 0, 4, 1);
    let out = e.into_inner();
    assert_eq!(&out[4..8], &[1, 2, 3, 4]);
    assert_eq!(&out[8..12], &[0, 0, 0, 0]);
    assert_eq!(out[12], 4);
    assert_eq!(out.len(), 22);
}

#[test]
fn unsupported_channel_count_is_refused() {
    let bytes = vec![1u8, 2];
    let r = QoiEncoder::new(Vec::new()).write_image(&bytes, 1, 1, 2);
    assert_eq!(r, Err(qoi::encoder::EncodeError::UnsupportedChannels));
}

#[test]
fn sink_keeps_what_it_held() {
    let bytes = vec![9u8, 9, 9];
    let out = QoiEncoder::new(vec![7u8]).write_image(&bytes, 1, 1, 3).unwrap();
    assert_eq!(out[0], 7);
    assert_eq!(&out[1..5], b"qoif");
}

#[test]
fn small_and_luma_differences() {
    // (10,10,10) luma from the start pixel; (11,9,10) small diff; (31,30,29) luma
    let bytes = vec![10u8, 10, 10, 11, 9, 10, 31, 30, 29];
    let out = QoiEncoder::new(Vec::new()).write_image(&bytes, 3, 1, 3).unwrap();
    let chunks = strip(&out);
    // diff: dr = 1+2 = 3, dg = -1+2 = 1, db = 0+2 = 2
    let diff = 0x40 | (3 << 4) | (1 << 2) | 2;
    // luma: dg = 21 -> 53, dr - dg = -1 -> 7, db - dg = -2 -> 6
    // first: dg = 10 -> 42, dr - dg = 0 -> 8, db - dg = 0 -> 8
    assert_eq!(chunks, vec![0x80 | 42, (8 << 4) | 8, diff, 0x80 | 53, (7 << 4) | 6]);
}

#[test]
fn alpha_change_gives_rgba_chunk() {
    let bytes = vec![100u8, 2, 200, 255, 200, 100, 50, 7];
    let out = QoiEncoder::new(Vec::new()).write_image(&bytes, 2, 1, 4).unwrap();
    assert_eq!(strip(&out), vec![254, 100, 2, 200, 255, 200, 100, 50, 7]);
}

#[test]
fn long_run_is_cut_at_sixty_two() {
    // one raw pixel followed by 100 repeats: runs of 62 and 38
    let mut bytes = Vec::new();
    for _ in 0..101 {
        bytes.extend_from_slice(&[100u8, 2, 200]);
    }
    let out = QoiEncoder::new(Vec::new()).write_image(&bytes, 101, 1, 3).unwrap();
    assert_eq!(strip(&out), vec![254, 100, 2, 200, 0xc0 | 61, 0xc0 | 37]);
}

#[test]
fn start_pixel_is_a_run_from_the_start() {
    // the stream starts after opaque black, so opaque black pixels are a run at once
    let bytes = vec![0u8, 0, 0, 0, 0, 0, 0, 0, 0];
    let out = QoiEncoder::new(Vec::new()).write_image(&bytes, 3, 1, 3).unwrap();
    assert_eq!(strip(&out), vec![0xc0 | 2]);
}

#[test]
fn transparent_black_is_found_in_the_fresh_table() {
    // (0,0,0,0) sits in slot 0 of a fresh table
    let bytes = vec![0u8, 0, 0, 0];
    let out = QoiEncoder::new(Vec::new()).write_image(&bytes, 1, 1, 4).unwrap();
    assert_eq!(strip(&out), vec![0]);
}

#[test]
fn trailing_single_repeat_is_not_written() {
    // a pending run of one repeated pixel is left out by the final drain
    let bytes = vec![100u8, 100, 0, 100, 100, 0];
    let out = QoiEncoder::new(Vec::new()).write_image(&bytes, 2, 1, 3).unwrap();
    assert_eq!(strip(&out), vec![254, 100, 100, 0]);
}
