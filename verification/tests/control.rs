use fan_control::control::{
    apply_encoder_delta, clamp_percent, duty_for_percent, percentile_index, pwm_step,
    rpm_from_count,
};
use fan_control::threads::EspThread;

#[test]
fn duty_inverts_and_scales() {
    // The output stage inverts: 0% request drives the register to full
    // scale, 100% to zero.
    assert_eq!(duty_for_percent(0), 1023);
    assert_eq!(duty_for_percent(100), 0);
    assert_eq!(duty_for_percent(50), 511);
    assert_eq!(duty_for_percent(25), 767);
    // Over-100 requests clamp.
    assert_eq!(duty_for_percent(250), 0);
}

#[test]
fn pwm_task_acts_only_on_change() {
    assert_eq!(pwm_step(50, 50), None);
    assert_eq!(pwm_step(50, 51), Some(51));
    assert_eq!(pwm_step(0, 0), None);
}

#[test]
fn encoder_delta_clamps_to_percent_range() {
    assert_eq!(apply_encoder_delta(50, 10), 60);
    assert_eq!(apply_encoder_delta(50, -10), 40);
    assert_eq!(apply_encoder_delta(5, -10), 0);
    assert_eq!(apply_encoder_delta(95, 10), 100);
    assert_eq!(apply_encoder_delta(0, i32::MIN), 0);
    assert_eq!(apply_encoder_delta(100, i32::MAX), 100);
}

#[test]
fn rpm_from_pulse_count() {
    // Four pulses per revolution over one second: 400 pulses is
    // 100 revolutions per second, 6000 RPM.
    assert_eq!(rpm_from_count(400, 1000), 6000);
    // The nominal 2400 RPM fan gives 160 pulses per second.
    assert_eq!(rpm_from_count(160, 1000), 2400);
    assert_eq!(rpm_from_count(0, 1000), 0);
    // A saturating corner: a huge count over a short window.
    assert_eq!(rpm_from_count(u32::MAX, 1), u32::MAX);
}

#[test]
fn network_percent_clamp() {
    assert_eq!(clamp_percent(0), 0);
    assert_eq!(clamp_percent(100), 100);
    assert_eq!(clamp_percent(101), 100);
    assert_eq!(clamp_percent(u32::MAX), 100);
}

#[test]
fn percentile_indexes() {
    assert_eq!(percentile_index(100, 50), 50);
    assert_eq!(percentile_index(100, 90), 90);
    assert_eq!(percentile_index(100, 99), 99);
    assert_eq!(percentile_index(7, 50), 3);
    assert_eq!(percentile_index(0, 90), 0);
}

#[test]
fn thread_config_builder() {
    let t = EspThread::new("render_loop");
    assert_eq!(t.name(), "render_loop");
    assert_eq!(t.stack_size_kb(), None);
    let t = EspThread::new("render_loop").with_stack_size(16);
    assert_eq!(t.name(), "render_loop");
    assert_eq!(t.stack_size_kb(), Some(16));
}
