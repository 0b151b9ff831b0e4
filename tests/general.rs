use qoi::chunks::{QoiChunk, OP_DIFF, OP_INDEX, OP_LUMA, OP_RGB, OP_RGBA, OP_RUN};
use qoi::codec::QoiCodecState;
use qoi::util::Pixel;

#[test]
fn test_op_diff_to_pixel_conversion() {
    let base_pixel = Pixel::new(2, 2, 2, 0);

    for i in -2..1 {
        let test_pixel = Pixel::new(
            (base_pixel.r() as i32 + i) as u8,
            (base_pixel.g() as i32 + i) as u8,
            (base_pixel.b() as i32 + i) as u8,
            base_pixel.a(),
        );

        let chunk = OP_DIFF::try_new(base_pixel, test_pixel).unwrap();

        assert_eq!(Pixel::from((base_pixel, chunk)), test_pixel);
    }
}

#[test]
fn test_op_luma_to_pixel_conversion() {
    let base_pixel = Pixel::new(100, 100, 100, 100);

    for i in -32..31 {
        let test_pixel = Pixel::new(
            (base_pixel.r() as i32 + i) as u8,
            (base_pixel.g() as i32 + i) as u8,
            (base_pixel.b() as i32 + i) as u8,
            base_pixel.a(),
        );

        let chunk = OP_LUMA::try_new(base_pixel, test_pixel).unwrap();

        assert_eq!(Pixel::from((base_pixel, chunk)), test_pixel);
    }
}

#[test]
fn diff_round_trips_with_wraparound() {
    let base = Pixel::new(0, 255, 1, 9);
    for dr in -2..2i32 {
        for dg in -2..2i32 {
            for db in -2..2i32 {
                let p = Pixel::new(
                    (base.r() as i32 + dr) as u8,
                    (base.g() as i32 + dg) as u8,
                    (base.b() as i32 + db) as u8,
                    9,
                );
                let c = OP_DIFF::try_new(base, p).unwrap();
                assert_eq!(Pixel::from((base, c)), p);
            }
        }
    }
}

#[test]
fn diff_refuses_out_of_range_or_alpha_change() {
    let base = Pixel::new(10, 10, 10, 255);
    assert!(OP_DIFF::try_new(base, Pixel::new(12, 10, 10, 255)).is_none());
    assert!(OP_DIFF::try_new(base, Pixel::new(7, 10, 10, 255)).is_none());
    assert!(OP_DIFF::try_new(base, Pixel::new(10, 10, 10, 254)).is_none());
}

#[test]
fn luma_round_trips_at_range_edges() {
    let base = Pixel::new(250, 5, 128, 1);
    for dg in [-32i32, -1, 0, 31] {
        for d in [-8i32, 0, 7] {
            let p = Pixel::new(
                (base.r() as i32 + dg + d) as u8,
                (base.g() as i32 + dg) as u8,
                (base.b() as i32 + dg - d - 1) as u8,
                1,
            );
            let c = OP_LUMA::try_new(base, p).unwrap();
            assert_eq!(Pixel::from((base, c)), p);
        }
    }
    assert!(OP_LUMA::try_new(base, Pixel::new(base.r(), base.g().wrapping_add(32), base.b(), 1)).is_none());
    assert!(OP_LUMA::try_new(base, Pixel::new(base.r().wrapping_add(8), base.g(), base.b(), 1)).is_none());
}

#[test]
fn hash_matches_formula() {
    assert_eq!(Pixel::new(100, 100, 0, 255).hash(), 21);
    assert_eq!(Pixel::new(150, 100, 0, 255).hash(), 43);
    assert_eq!(Pixel::new(0, 0, 0, 0).hash(), 0);
    assert_eq!(Pixel::new(255, 255, 255, 255).hash(), (255usize * 26) % 256 % 64);
}

#[test]
fn chunk_bytes_and_back() {
    let chunks = vec![
        QoiChunk::RGB(OP_RGB::new(Pixel::new(1, 2, 3, 4))),
        QoiChunk::RGBA(OP_RGBA::new(Pixel::new(5, 6, 7, 8))),
        QoiChunk::INDEX(OP_INDEX::new(63)),
        QoiChunk::DIFF(OP_DIFF { dr: 3, dg: 0, db: 1 }),
        QoiChunk::LUMA(OP_LUMA { dg: 63, dr_dg: 15, db_dg: 0 }),
        QoiChunk::RUN(OP_RUN::new(62)),
        QoiChunk::RUN(OP_RUN::new(1)),
    ];
    let mut bytes = Vec::new();
    for c in &chunks {
        c.encode(&mut bytes);
    }
    assert_eq!(
        bytes,
        vec![0xfe, 1, 2, 3, 0xff, 5, 6, 7, 8, 63, 0x40 | 0x30 | 1, 0x80 | 63, 0xf0, 0xfd, 0xc0]
    );
    let mut pos = 0;
    let mut back = Vec::new();
    while pos < bytes.len() {
        let (c, n) = QoiChunk::decode(&bytes, pos).unwrap();
        back.push(c);
        pos += n;
    }
    assert_eq!(back, chunks);
    assert_eq!(OP_RUN::new(17).run_length(), 17);
}

#[test]
fn decode_stops_inside_a_chunk() {
    assert!(QoiChunk::decode(&[0xff, 1, 2, 3], 0).is_none());
    assert!(QoiChunk::decode(&[0x80], 0).is_none());
}

#[test]
fn fresh_states_have_written_nothing() {
    let s = QoiCodecState::new();
    assert_eq!(s.modified, 0);
    assert!(s.from_stream_start);
    assert_eq!(s.last_pixel, Pixel::new(0, 0, 0, 255));
    assert_eq!(s.run_length, 0);
    assert!(s.previously_seen.iter().all(|p| *p == Pixel::new(0, 0, 0, 0)));
    for i in 0..64 {
        assert!(!s.modified(i));
        assert!(s.vouches(i));
    }
    let seg = QoiCodecState::new_segment();
    assert_eq!(seg.modified, 0);
    assert!(!seg.vouches(0));
}
