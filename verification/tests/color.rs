use fan_control::color::{rgb565_to_rgb888, rgb888_to_rgb565};

#[test]
fn packing_corners() {
    assert_eq!(rgb888_to_rgb565(0, 0, 0), 0x0000);
    assert_eq!(rgb888_to_rgb565(255, 255, 255), 0xFFFF);
    assert_eq!(rgb888_to_rgb565(255, 0, 0), 0xF800);
    assert_eq!(rgb888_to_rgb565(0, 255, 0), 0x07E0);
    assert_eq!(rgb888_to_rgb565(0, 0, 255), 0x001F);
}

#[test]
fn packing_rounds_to_nearest() {
    // 128 * 31 / 255 is 15.56, which rounds up to 16.
    assert_eq!(rgb888_to_rgb565(128, 0, 0) >> 11, 16);
    // 128 * 63 / 255 is 31.62, which rounds up to 32.
    assert_eq!((rgb888_to_rgb565(0, 128, 0) >> 5) & 0x3F, 32);
    // 16 * 255 / 31 is 131.6, which rounds up to 132.
    assert_eq!(rgb565_to_rgb888(16 << 11).0, 132);
    // 4 * 255 / 255-ish stays below the halfway point: 4 * 255 / 63
    // is 16.19, which rounds down to 16.
    assert_eq!(rgb565_to_rgb888(4 << 5).1, 16);
}

#[test]
fn unpacking_corners() {
    assert_eq!(rgb565_to_rgb888(0x0000), (0, 0, 0));
    assert_eq!(rgb565_to_rgb888(0xFFFF), (255, 255, 255));
    assert_eq!(rgb565_to_rgb888(0xF800), (255, 0, 0));
    assert_eq!(rgb565_to_rgb888(0x07E0), (0, 255, 0));
    assert_eq!(rgb565_to_rgb888(0x001F), (0, 0, 255));
}

#[test]
fn channel_scaling_is_monotonic() {
    let mut last = rgb888_to_rgb565(0, 0, 0);
    for v in 1..=255u8 {
        let c = rgb888_to_rgb565(v, v, v);
        assert!(c >= last);
        last = c;
    }
}

#[test]
fn eight_bit_detour_is_the_identity() {
    // Expanding a packed color to 8-bit channels and packing it again
    // gives the color back exactly: with round-to-nearest in both
    // directions the total error per channel stays under half a step.
    for r5 in 0..32u16 {
        for b5 in [0u16, 13, 31] {
            for g6 in 0..64u16 {
                let c = r5 * 2048 + g6 * 32 + b5;
                let (r, g, b) = rgb565_to_rgb888(c);
                assert_eq!(rgb888_to_rgb565(r, g, b), c);
            }
        }
    }
}
