//! The decision arithmetic of the sampling and actuation tasks: duty
//! conversion for the PWM output, encoder-delta application, RPM from
//! a pulse count, the network clamp, and the render-timing percentile
//! index. The tasks' hardware calls live outside the library; these
//! functions decide what those calls are given.

use vstd::prelude::*;

verus! {

/// Duty register value for a duty-cycle percentage.
///
/// The output stage inverts (the pin pulls the PWM line down), so the
/// percentage is inverted before scaling to the 10-bit range; an
/// over-100 request is clamped first.
pub open spec fn spec_duty_for_percent(percent: nat) -> int {
    let p: int = if percent <= 100 {
        percent as int
    } else {
        100
    };
    ((100 - p) * 1023) / 100
}

pub fn duty_for_percent(percent: u32) -> (duty: u32)
    ensures
        duty == spec_duty_for_percent(percent as nat),
        duty <= 1023,
        percent == 0 ==> duty == 1023,
        percent >= 100 ==> duty == 0,
{
    let p: u32 = if percent >= 100 {
        100
    } else {
        percent
    };
    proof {
        assert(0 <= ((100 - p as int) * 1023) / 100 <= 1023) by (nonlinear_arith)
            requires
                0 <= p <= 100,
        ;
    }
    ((100 - p) * 1023) / 100
}

/// What the PWM task does on one poll: a new duty request only when
/// the shared duty cell changed since the last poll.
pub fn pwm_step(last: u32, current: u32) -> (r: Option<u32>)
    ensures
        r == (if current != last {
            Some(current)
        } else {
            None::<u32>
        }),
{
    if current != last {
        Some(current)
    } else {
        None
    }
}

/// The duty cycle after a rotary-encoder movement: the delta applied
/// to the current value, clamped to 0..=100.
pub open spec fn spec_apply_encoder_delta(pwm: int, diff: int) -> int {
    let v = pwm + diff;
    if v < 0 {
        0
    } else if v > 100 {
        100
    } else {
        v
    }
}

pub fn apply_encoder_delta(pwm: u32, diff: i32) -> (r: u32)
    ensures
        r == spec_apply_encoder_delta(pwm as int, diff as int),
        r <= 100,
{
    let v: i64 = pwm as i64 + diff as i64;
    if v < 0 {
        0
    } else if v > 100 {
        100
    } else {
        v as u32
    }
}

/// Measured RPM from a pulse count over a sampling window: four pulses
/// per revolution, scaled to a minute, saturating at the counter's
/// range.
pub open spec fn spec_rpm_from_count(count: nat, elapsed_ms: nat) -> int {
    let rpm = (count * 15000) / elapsed_ms;
    if rpm <= u32::MAX {
        rpm as int
    } else {
        u32::MAX as int
    }
}

pub fn rpm_from_count(count: u32, elapsed_ms: u32) -> (rpm: u32)
    requires
        elapsed_ms > 0,
    ensures
        rpm == spec_rpm_from_count(count as nat, elapsed_ms as nat),
{
    proof {
        assert(count as int * 15000 <= u64::MAX as int) by (nonlinear_arith)
            requires
                count <= u32::MAX,
        ;
        vstd::arithmetic::div_mod::lemma_div_pos_is_pos(
            count as int * 15000, elapsed_ms as int);
    }
    let raw: u64 = (count as u64 * 15000) / (elapsed_ms as u64);
    if raw <= u32::MAX as u64 {
        raw as u32
    } else {
        u32::MAX
    }
}

/// The network path's duty clamp: any requested percentage is capped
/// at 100 before it reaches the shared state.
pub fn clamp_percent(p: u32) -> (r: u32)
    ensures
        r == (if p <= 100 {
            p as int
        } else {
            100
        }),
{
    if p > 100 {
        100
    } else {
        p
    }
}

/// The index of the q-th percentile entry in a sorted run of `len`
/// timing samples.
pub fn percentile_index(len: usize, pct: usize) -> (r: usize)
    requires
        pct <= 100,
    ensures
        r == (len as int * pct as int) / 100,
        r <= len,
{
    proof {
        assert(0 <= (len as int * pct as int) / 100 <= len) by (nonlinear_arith)
            requires
                0 <= pct <= 100,
                0 <= len,
        ;
        assert(len as int * pct as int <= u128::MAX as int) by (nonlinear_arith)
            requires
                0 <= len <= usize::MAX,
                0 <= pct <= 100,
                usize::MAX as int * 100 <= u128::MAX as int,
        ;
    }
    ((len as u128 * pct as u128) / 100) as usize
}

} // verus!
