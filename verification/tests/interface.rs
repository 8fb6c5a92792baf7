use std::sync::Arc;

use fan_control::color::rgb888_to_rgb565;
use fan_control::rley::Rgb565Rle;
use fan_control::surface::FrameBuffer;
use fan_control::text::format_uptime_secs;
use fan_control::{compose_plan, Interface, InterfaceState};

#[test]
fn uptime_labels() {
    assert_eq!(format_uptime_secs(0), "0s");
    assert_eq!(format_uptime_secs(45), "45s");
    assert_eq!(format_uptime_secs(59), "59s");
    assert_eq!(format_uptime_secs(60), "1m");
    assert_eq!(format_uptime_secs(90), "1m");
    assert_eq!(format_uptime_secs(3599), "59m");
    assert_eq!(format_uptime_secs(3600), "1h");
    assert_eq!(format_uptime_secs(7300), "2h");
    assert_eq!(format_uptime_secs(86399), "23h");
    assert_eq!(format_uptime_secs(86400), "1d");
    assert_eq!(format_uptime_secs(604799), "6d");
    // 700000 s is a little over eight days, which is past the one-week
    // threshold, so the cascade shows it in weeks.
    assert_eq!(format_uptime_secs(700000), "1w");
    assert_eq!(format_uptime_secs(604800), "1w");
    // 5,000,000 s is about 8.3 weeks, still under 52 weeks.
    assert_eq!(format_uptime_secs(5_000_000), "8w");
    // 52 weeks exactly tips into years.
    assert_eq!(format_uptime_secs(52 * 7 * 86400), "1y");
    assert_eq!(format_uptime_secs(52 * 7 * 86400 - 1), "51w");
}

#[test]
fn telemetry_cells_hold_their_values() {
    let state = InterfaceState::with_initial_pwm(50);
    assert_eq!(state.pwm(), 50);
    assert_eq!(state.rpm(), 0);
    assert_eq!(state.target_rpm_value(), 0);
    state.set_rpm(1234);
    state.set_pwm(80);
    state.set_target_rpm(1500);
    assert_eq!(state.rpm(), 1234);
    assert_eq!(state.pwm(), 80);
    assert_eq!(state.target_rpm_value(), 1500);
    let fresh = InterfaceState::new();
    assert_eq!(fresh.pwm(), 0);
}

#[test]
fn plan_labels_and_positions() {
    let plan = compose_plan(42, 1250, 47, 45, false);
    assert_eq!(plan.texts.len(), 4);
    assert_eq!(plan.texts[0].text, "  42 RPM");
    assert_eq!((plan.texts[0].x, plan.texts[0].y), (8, 26));
    assert!(plan.texts[0].large);
    assert_eq!(plan.texts[1].text, "T: 1250");
    assert_eq!((plan.texts[1].x, plan.texts[1].y), (10, 228));
    assert_eq!(plan.texts[2].text, "45s");
    assert_eq!((plan.texts[2].x, plan.texts[2].y), (104, 228));
    // 47% shows as the next lower multiple of five.
    assert_eq!(plan.texts[3].text, "PWM: 45");
    assert_eq!((plan.texts[3].x, plan.texts[3].y), (160, 228));
    assert_eq!(plan.y_range, (30, 210));
    assert!(plan.bottom_chrome.is_none());
    assert_eq!(plan.background, rgb888_to_rgb565(255, 182, 140));
}

#[test]
fn first_paint_covers_everything() {
    let plan = compose_plan(0, 0, 0, 0, true);
    assert_eq!(plan.y_range, (0, 240));
    let chrome = plan.bottom_chrome.expect("first paint repaints the chrome");
    assert_eq!((chrome.x, chrome.y, chrome.width, chrome.height), (0, 210, 240, 30));
    assert_eq!(plan.texts[0].text, "   0 RPM");
    assert_eq!(plan.texts[3].text, "PWM:  0");
}

#[test]
fn wide_values_keep_their_digits() {
    let plan = compose_plan(123456, 7, 100, 60, false);
    assert_eq!(plan.texts[0].text, "123456 RPM");
    assert_eq!(plan.texts[1].text, "T: 7   ");
    assert_eq!(plan.texts[2].text, "1m");
    assert_eq!(plan.texts[3].text, "PWM:100");
}

#[test]
fn render_paints_animation_and_reports_telemetry() {
    let state = Arc::new(InterfaceState::with_initial_pwm(50));
    state.set_rpm(777);
    let color = rgb888_to_rgb565(9, 9, 9);
    let frame = Rgb565Rle::encode(6, 6, &vec![color; 36]);
    let frames = vec![frame.clone(), frame.clone(), frame.clone(), frame];
    let mut iface = Interface::new(state, frames);
    let mut fb = FrameBuffer::new(6, 6, 0);
    let plan = iface.render(&mut fb, 0);
    assert_eq!(plan.y_range, (0, 240));
    assert!(plan.bottom_chrome.is_some());
    assert_eq!(plan.texts[0].text, " 777 RPM");
    assert_eq!(plan.texts[3].text, "PWM: 50");
    assert_eq!(fb.pixel(3, 3), color);
    assert_eq!(iface.animation.next_frame, 1);
    // A second call before the due time repaints no animation but
    // still reports fresh telemetry.
    let plan = iface.render(&mut fb, 500);
    assert_eq!(plan.y_range, (30, 210));
    assert!(plan.bottom_chrome.is_none());
    assert_eq!(iface.animation.next_frame, 1);
}
