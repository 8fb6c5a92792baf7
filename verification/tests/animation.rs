use fan_control::animations::{frame_delay_ms, LeekSpin};
use fan_control::color::rgb888_to_rgb565;
use fan_control::rley::Rgb565Rle;
use fan_control::surface::FrameBuffer;

fn solid_frame(color: u16) -> Vec<u8> {
    Rgb565Rle::encode(4, 4, &vec![color; 16])
}

fn frame_table() -> Vec<Vec<u8>> {
    vec![
        solid_frame(rgb888_to_rgb565(255, 0, 0)),
        solid_frame(rgb888_to_rgb565(0, 255, 0)),
        solid_frame(rgb888_to_rgb565(0, 0, 255)),
        solid_frame(rgb888_to_rgb565(255, 255, 0)),
    ]
}

#[test]
fn delay_at_standstill_is_one_second() {
    assert_eq!(frame_delay_ms(0), 1000);
}

#[test]
fn delay_at_full_speed_is_ninety_ms() {
    assert_eq!(frame_delay_ms(2000), 90);
    assert_eq!(frame_delay_ms(2001), 90);
    assert_eq!(frame_delay_ms(1_000_000), 90);
}

#[test]
fn delay_never_rises_with_speed() {
    let mut last = frame_delay_ms(0);
    for rpm in (0..=2100u32).step_by(25) {
        let d = frame_delay_ms(rpm);
        assert!(d <= last, "delay rose from {last} to {d} at {rpm} RPM");
        assert!((90..=1000).contains(&d));
        last = d;
    }
}

#[test]
fn first_render_paints_and_schedules() {
    let frames = frame_table();
    let mut anim = LeekSpin::new();
    let mut fb = FrameBuffer::new(4, 4, 0);
    let painted = anim.render(&frames, &mut fb, 0, (0, 4), 0);
    assert!(painted);
    assert_eq!(anim.next_frame, 1);
    assert_eq!(anim.next_frame_at_ms, 1000);
    assert_eq!(fb.pixel(0, 0), rgb888_to_rgb565(255, 0, 0));
}

#[test]
fn early_render_does_nothing() {
    let frames = frame_table();
    let mut anim = LeekSpin::new();
    let mut fb = FrameBuffer::new(4, 4, 0);
    anim.render(&frames, &mut fb, 0, (0, 4), 0);
    // Before the due time: no paint, no advance.
    let painted = anim.render(&frames, &mut fb, 999, (0, 4), 0);
    assert!(!painted);
    assert_eq!(anim.next_frame, 1);
    assert_eq!(anim.next_frame_at_ms, 1000);
}

#[test]
fn cursor_cycles_through_four_frames() {
    let frames = frame_table();
    let mut anim = LeekSpin::new();
    let mut fb = FrameBuffer::new(4, 4, 0);
    let colors = [
        rgb888_to_rgb565(255, 0, 0),
        rgb888_to_rgb565(0, 255, 0),
        rgb888_to_rgb565(0, 0, 255),
        rgb888_to_rgb565(255, 255, 0),
        rgb888_to_rgb565(255, 0, 0),
    ];
    let mut t = 0u32;
    for (k, expect) in colors.iter().enumerate() {
        let painted = anim.render(&frames, &mut fb, t, (0, 4), 2000);
        assert!(painted);
        assert_eq!(anim.next_frame as usize, (k + 1) % 4);
        assert_eq!(fb.pixel(2, 2), *expect);
        t = anim.next_frame_at_ms;
    }
}

#[test]
fn fast_speed_schedules_sooner() {
    let frames = frame_table();
    let mut fast = LeekSpin::new();
    let mut slow = LeekSpin::new();
    let mut fb = FrameBuffer::new(4, 4, 0);
    fast.render(&frames, &mut fb, 100, (0, 4), 2000);
    slow.render(&frames, &mut fb, 100, (0, 4), 0);
    assert_eq!(fast.next_frame_at_ms, 190);
    assert_eq!(slow.next_frame_at_ms, 1100);
}

#[test]
fn oversized_surface_keeps_its_margin() {
    // A 4x4 frame painted onto a 7x7 surface covers only the frame's
    // own area; the margin keeps the surface's old pixels.
    let frames = frame_table();
    let mut anim = LeekSpin::new();
    let mut fb = FrameBuffer::new(7, 7, 0xAAAA);
    let painted = anim.render(&frames, &mut fb, 0, (0, 7), 0);
    assert!(painted);
    assert_eq!(anim.next_frame, 1);
    assert_eq!(fb.pixel(0, 0), rgb888_to_rgb565(255, 0, 0));
    assert_eq!(fb.pixel(3, 3), rgb888_to_rgb565(255, 0, 0));
    assert_eq!(fb.pixel(4, 0), 0xAAAA);
    assert_eq!(fb.pixel(0, 4), 0xAAAA);
    assert_eq!(fb.pixel(6, 6), 0xAAAA);
}
