use qoi::encoder::QoiEncoder;

fn encode_with(bytes: &[u8], width: u32, height: u32, channels: u8, segments: usize) -> Vec<u8> {
    let mut e = QoiEncoder::new(Vec::new());
    e.encode(bytes, width, height, channels, segments);
    e.into_inner()
}

fn check_all_splits(bytes: &[u8], channels: u8) {
    let n = bytes.len() / channels as usize;
    let one = encode_with(bytes, n as u32, 1, channels, 1);
    for k in 1..=n + 2 {
        assert_eq!(encode_with(bytes, n as u32, 1, channels, k), one, "{} segments", k);
    }
}

#[test]
fn runs_across_segment_boundaries() {
    let mut bytes = Vec::new();
    for _ in 0..150 {
        bytes.extend_from_slice(&[40u8, 50, 60]);
    }
    bytes.extend_from_slice(&[1, 2, 3]);
    for _ in 0..70 {
        bytes.extend_from_slice(&[40u8, 50, 60]);
    }
    check_all_splits(&bytes, 3);
}

#[test]
fn start_pixel_opening_a_segment() {
    let mut bytes = Vec::new();
    for i in 0..40u8 {
        if i % 9 < 4 {
            bytes.extend_from_slice(&[0, 0, 0, 255]);
        } else if i % 9 == 5 {
            bytes.extend_from_slice(&[0, 0, 0, 0]);
        } else {
            bytes.extend_from_slice(&[i, i.wrapping_mul(7), 3, 255]);
        }
    }
    check_all_splits(&bytes, 4);
}

#[test]
fn index_references_across_segments() {
    let mut bytes = Vec::new();
    let palette = [[10u8, 20, 30], [200, 100, 0], [10, 20, 31], [0, 0, 0], [90, 90, 90]];
    for i in 0..64usize {
        bytes.extend_from_slice(&palette[(i * 3 + i / 5) % palette.len()]);
    }
    check_all_splits(&bytes, 3);
}

#[test]
fn colliding_slots_across_segments() {
    // (0,0,0,0) and (64,0,0,0) share slot 0 of the table
    let mut bytes = Vec::new();
    for i in 0..30usize {
        let p: [u8; 4] = match i % 4 {
            0 => [0, 0, 0, 0],
            1 => [64, 0, 0, 0],
            2 => [0, 0, 0, 0],
            _ => [5, 5, 5, 5],
        };
        bytes.extend_from_slice(&p);
    }
    check_all_splits(&bytes, 4);
}

#[test]
fn write_image_matches_one_segment() {
    let bytes = vec![3u8, 4, 5, 3, 4, 5, 6, 7, 8, 200, 1, 1, 3, 4, 5, 3, 4, 5];
    let one = encode_with(&bytes, 6, 1, 3, 1);
    let out = QoiEncoder::new(Vec::new()).write_image(&bytes, 6, 1, 3).unwrap();
    assert_eq!(out, one);
}
