use fan_control::color::rgb888_to_rgb565;
use fan_control::rley::Rgb565Rle;

fn encode_decode(width: u32, height: u32, pixels: &Vec<u16>) -> Vec<u16> {
    let bytes = Rgb565Rle::encode(width, height, pixels);
    let (w, h, out) = Rgb565Rle::decode(&bytes, 1 << 20).expect("well-formed frame");
    assert_eq!(w, width);
    assert_eq!(h, height);
    out
}

#[test]
fn round_trip_small_frames() {
    let a = rgb888_to_rgb565(255, 0, 0);
    let b = rgb888_to_rgb565(0, 255, 0);
    let c = rgb888_to_rgb565(0, 0, 255);
    let frames: Vec<(u32, u32, Vec<u16>)> = vec![
        (1, 1, vec![a]),
        (4, 2, vec![a, a, a, b, b, c, a, a]),
        (3, 3, vec![a, b, c, c, b, a, a, a, a]),
        (5, 1, vec![a, a, a, a, a]),
        (1, 5, vec![a, b, a, b, a]),
        (0, 0, vec![]),
    ];
    for (w, h, pix) in frames {
        let out = encode_decode(w, h, &pix);
        assert_eq!(out, pix);
    }
}

#[test]
fn round_trip_long_runs_split_at_255() {
    // One 300-pixel row forces a 255-run plus a 45-run.
    let a = rgb888_to_rgb565(10, 20, 30);
    let pixels: Vec<u16> = vec![a; 300];
    let out = encode_decode(300, 1, &pixels);
    assert_eq!(out, pixels);
}

#[test]
fn round_trip_sixty_four_colors() {
    // Exactly 64 distinct colors in a 64x2 frame round-trips exactly.
    let mut pixels: Vec<u16> = Vec::new();
    for row in 0..2 {
        for k in 0..64u16 {
            let _ = row;
            pixels.push(k * 7 + 1);
        }
    }
    let out = encode_decode(64, 2, &pixels);
    assert_eq!(out, pixels);
}

#[test]
fn palette_bound_on_wire() {
    // More than 64 distinct colors: the stored palette size stays at 64.
    let mut pixels: Vec<u16> = Vec::new();
    for k in 0..200u16 {
        pixels.push(k * 3);
    }
    let bytes = Rgb565Rle::encode(200, 1, &pixels);
    assert!(bytes.len() >= 9);
    assert!(bytes[8] <= 64);
    // The frame still decodes to something of the right size, with
    // every pixel drawn from the stored palette.
    let (w, h, out) = Rgb565Rle::decode(&bytes, 1 << 20).expect("parse");
    assert_eq!((w, h), (200, 1));
    assert_eq!(out.len(), 200);
    let palette: Vec<u16> = (0..bytes[8] as usize)
        .map(|k| u16::from_le_bytes([bytes[9 + 2 * k], bytes[9 + 2 * k + 1]]))
        .collect();
    for p in &out {
        assert!(palette.contains(p));
    }
}

#[test]
fn concrete_scenario_4x2() {
    // A 4x2 image [A,A,A,B, B,C,A,A]: palette {A,B,C}, and no run
    // crosses from row 0 into row 1.
    let a = rgb888_to_rgb565(200, 0, 0);
    let b = rgb888_to_rgb565(0, 200, 0);
    let c = rgb888_to_rgb565(0, 0, 200);
    let pixels = vec![a, a, a, b, b, c, a, a];
    let bytes = Rgb565Rle::encode(4, 2, &pixels);
    // Header: width 4, height 2.
    assert_eq!(&bytes[0..4], &4u32.to_le_bytes());
    assert_eq!(&bytes[4..8], &2u32.to_le_bytes());
    // Palette: the three colors, rarest first (C once, B twice, A five
    // times).
    assert_eq!(bytes[8], 3);
    let palette: Vec<u16> = (0..3)
        .map(|k| u16::from_le_bytes([bytes[9 + 2 * k], bytes[9 + 2 * k + 1]]))
        .collect();
    assert_eq!(palette, vec![c, b, a]);
    // Packet stream: run(A,3), literal(B), literal(B), literal(C),
    // run(A,2). The 3-run of A stops at the end of row 0 even though
    // row 1 continues with A-colored pixels later.
    let stream = &bytes[9 + 6..];
    assert_eq!(stream, &[0x80 | 2, 3, 1, 1, 0, 0x80 | 2, 2]);
    // And the frame round-trips.
    let (_, _, out) = Rgb565Rle::decode(&bytes, 1 << 20).expect("parse");
    assert_eq!(out, pixels);
}

#[test]
fn run_packets_stay_inside_rows() {
    // Walk the encoded stream of a frame built to tempt row-crossing
    // runs and check every run against its row position.
    let a = rgb888_to_rgb565(1, 2, 3);
    let b = rgb888_to_rgb565(4, 5, 6);
    let width = 6u32;
    let mut pixels: Vec<u16> = Vec::new();
    for _ in 0..4 {
        pixels.extend_from_slice(&[a, a, a, a, a, a]);
    }
    pixels[11] = b;
    let bytes = Rgb565Rle::encode(width, 4, &pixels);
    let ps = bytes[8] as usize;
    let stream = &bytes[9 + 2 * ps..];
    let mut x: u32 = 0;
    let mut i = 0;
    while i < stream.len() {
        if x >= width {
            x = 0;
        }
        let packet = stream[i];
        if packet & 0x80 != 0 {
            let count = stream[i + 1] as u32;
            assert!(count >= 1);
            assert!(count <= 255);
            assert!(x + count <= width, "run crosses a row boundary");
            x += count;
            i += 2;
        } else {
            x += 1;
            i += 1;
        }
    }
}

#[test]
fn malformed_buffers_yield_no_image() {
    // Shorter than the 9-byte header.
    for len in 0..9usize {
        let buf = vec![0u8; len];
        assert!(Rgb565Rle::new(&buf).is_none());
    }
    // Palette size over 64.
    let mut buf = vec![0u8; 200];
    buf[8] = 65;
    assert!(Rgb565Rle::new(&buf).is_none());
    // Declared palette does not fit in the buffer.
    let mut buf = vec![0u8; 12];
    buf[8] = 4;
    assert!(Rgb565Rle::new(&buf).is_none());
    // The same shapes through decode.
    assert!(Rgb565Rle::decode(&[1, 2, 3], 1 << 20).is_none());
    // A palette that just fits parses.
    let mut buf = vec![0u8; 9 + 8];
    buf[8] = 4;
    assert!(Rgb565Rle::new(&buf).is_some());
}

#[test]
fn bad_palette_index_stops_painting() {
    // width 2, height 1, palette of 1 color; the second packet points
    // past the palette, so only the first pixel is painted.
    let mut bytes: Vec<u8> = Vec::new();
    bytes.extend_from_slice(&2u32.to_le_bytes());
    bytes.extend_from_slice(&1u32.to_le_bytes());
    bytes.push(1);
    bytes.extend_from_slice(&0x1234u16.to_le_bytes());
    bytes.push(0); // literal, palette entry 0
    bytes.push(5); // literal, index 5: out of range
    let (w, h, out) = Rgb565Rle::decode(&bytes, 1 << 20).expect("header parses");
    assert_eq!((w, h), (2, 1));
    assert_eq!(out, vec![0x1234, 0]);
}

#[test]
fn decode_refuses_oversized_allocations() {
    // A parseable header whose frame is larger than the caller's
    // allocation budget.
    let mut bytes: Vec<u8> = Vec::new();
    bytes.extend_from_slice(&1000u32.to_le_bytes());
    bytes.extend_from_slice(&1000u32.to_le_bytes());
    bytes.push(0);
    assert!(Rgb565Rle::new(&bytes).is_some());
    assert!(Rgb565Rle::decode(&bytes, 1000).is_none());
    assert!(Rgb565Rle::decode(&bytes, 1_000_000).is_some());
}
