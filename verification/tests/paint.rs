use fan_control::color::rgb888_to_rgb565;
use fan_control::rley::Rgb565Rle;
use fan_control::surface::FrameBuffer;

fn checker_frame(width: u32, height: u32) -> (Vec<u8>, Vec<u16>) {
    let a = rgb888_to_rgb565(250, 10, 10);
    let b = rgb888_to_rgb565(10, 250, 10);
    let mut pixels: Vec<u16> = Vec::new();
    for y in 0..height {
        for x in 0..width {
            pixels.push(if (x + y) % 2 == 0 { a } else { b });
        }
    }
    (Rgb565Rle::encode(width, height, &pixels), pixels)
}

#[test]
fn clipped_paint_matches_filtered_full_paint() {
    let (bytes, _) = checker_frame(8, 8);
    let sentinel = 0xBEEFu16;

    let full_img = Rgb565Rle::new(&bytes).unwrap();
    let mut full = FrameBuffer::new(8, 8, sentinel);
    full_img.paint(&mut full);

    let clipped_img = Rgb565Rle::new(&bytes).unwrap().limit((2, 5));
    let mut clipped = FrameBuffer::new(8, 8, sentinel);
    clipped_img.paint(&mut clipped);

    for y in 0..8u32 {
        for x in 0..8u32 {
            if (2..5).contains(&y) {
                // Inside the window: exactly the full paint's pixels.
                assert_eq!(clipped.pixel(x, y), full.pixel(x, y));
            } else {
                // Outside: never written.
                assert_eq!(clipped.pixel(x, y), sentinel);
            }
        }
    }
}

#[test]
fn empty_window_leaves_image_unclipped() {
    let (bytes, pixels) = checker_frame(4, 4);
    let img = Rgb565Rle::new(&bytes).unwrap().limit((3, 3));
    let mut fb = FrameBuffer::new(4, 4, 0);
    img.paint(&mut fb);
    for y in 0..4u32 {
        for x in 0..4u32 {
            assert_eq!(fb.pixel(x, y), pixels[(y * 4 + x) as usize]);
        }
    }
}

#[test]
fn clip_window_past_the_frame_edge_caps_at_height() {
    let (bytes, pixels) = checker_frame(4, 4);
    let img = Rgb565Rle::new(&bytes).unwrap().limit((2, 100));
    let sentinel = 0x1111u16;
    let mut fb = FrameBuffer::new(4, 4, sentinel);
    img.paint(&mut fb);
    for y in 0..4u32 {
        for x in 0..4u32 {
            if y >= 2 {
                assert_eq!(fb.pixel(x, y), pixels[(y * 4 + x) as usize]);
            } else {
                assert_eq!(fb.pixel(x, y), sentinel);
            }
        }
    }
}

#[test]
fn undersized_surface_clips_the_paint() {
    // Painting an 8x8 frame onto a 3x5 surface draws only the pixels
    // inside the surface, at their own coordinates.
    let (bytes, pixels) = checker_frame(8, 8);
    let img = Rgb565Rle::new(&bytes).unwrap();
    let mut fb = FrameBuffer::new(3, 5, 0);
    img.paint(&mut fb);
    for y in 0..5u32 {
        for x in 0..3u32 {
            assert_eq!(fb.pixel(x, y), pixels[(y * 8 + x) as usize]);
        }
    }
}

#[test]
fn batches_reproduce_the_paint() {
    let (bytes, _) = checker_frame(8, 8);
    let img = Rgb565Rle::new(&bytes).unwrap();

    let mut direct = FrameBuffer::new(8, 8, 0);
    img.paint(&mut direct);

    let batches = img.draw_batches(2);
    let mut batched = FrameBuffer::new(8, 8, 0);
    for b in &batches {
        batched.write_batch(b);
    }
    for y in 0..8u32 {
        for x in 0..8u32 {
            assert_eq!(batched.pixel(x, y), direct.pixel(x, y));
        }
    }
}

#[test]
fn batch_count_is_bounded_by_capacity() {
    let (bytes, _) = checker_frame(8, 8);
    let img = Rgb565Rle::new(&bytes).unwrap();
    // 64 pixels at 2 rows (16 pixels) per batch: exactly 4 batches,
    // each full.
    let batches = img.draw_batches(2);
    assert_eq!(batches.len(), 4);
    for b in &batches {
        assert!(b.pixels.len() <= 16);
    }
    // One batch can carry the whole frame.
    let batches = img.draw_batches(8);
    assert_eq!(batches.len(), 1);
    assert_eq!(batches[0].pixels.len(), 64);
    assert_eq!((batches[0].start_x, batches[0].start_y), (0, 0));
}

#[test]
fn clipped_batches_start_at_the_window() {
    let (bytes, _) = checker_frame(8, 8);
    let img = Rgb565Rle::new(&bytes).unwrap().limit((3, 6));
    let batches = img.draw_batches(1);
    assert!(!batches.is_empty());
    assert_eq!((batches[0].start_x, batches[0].start_y), (0, 3));
    let total: usize = batches.iter().map(|b| b.pixels.len()).sum();
    assert_eq!(total, 3 * 8);
}
