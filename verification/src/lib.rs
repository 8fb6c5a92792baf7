//! Verified core of a fan-controller display firmware: a
//! palette-indexed run-length image codec with clipped, batched
//! painting; an animation state machine; the interface renderer's
//! composition; the uptime and telemetry labels; the shared telemetry
//! cells the tasks publish into; and the decision arithmetic of the
//! sampling and actuation tasks.

pub mod animations;
pub mod color;
pub mod control;
pub mod palette;
pub mod rle_model;
pub mod rley;
pub mod surface;
pub mod text;
pub mod threads;

use vstd::prelude::*;
use core::sync::atomic::{AtomicU32, Ordering};
use std::sync::Arc;
use crate::animations::LeekSpin;
use crate::surface::FrameBuffer;
use crate::text::{spec_dec, spec_pad_left, spec_pad_right, spec_uptime_label};

verus! {

/// The shared telemetry cells: measured fan speed, duty-cycle
/// percentage, and target speed. Each cell is an independent relaxed
/// atomic — readers may see momentarily stale combinations across
/// cells, and no consistency between cells is promised or needed.
pub struct InterfaceState {
    pub fan_rpm: AtomicU32,
    pub fan_pwm: AtomicU32,
    pub target_rpm: AtomicU32,
}

impl InterfaceState {
    /// All cells at zero.
    pub fn new() -> InterfaceState {
        InterfaceState {
            fan_rpm: AtomicU32::new(0),
            fan_pwm: AtomicU32::new(0),
            target_rpm: AtomicU32::new(0),
        }
    }

    /// Zeroed cells except a starting duty cycle.
    pub fn with_initial_pwm(pwm: u32) -> InterfaceState {
        InterfaceState {
            fan_rpm: AtomicU32::new(0),
            fan_pwm: AtomicU32::new(pwm),
            target_rpm: AtomicU32::new(0),
        }
    }

    /// The measured fan speed most recently published.
    pub fn rpm(&self) -> u32 {
        self.fan_rpm.load(Ordering::Relaxed)
    }

    /// Publish a measured fan speed.
    pub fn set_rpm(&self, v: u32) {
        self.fan_rpm.store(v, Ordering::Relaxed)
    }

    /// The duty-cycle percentage most recently published.
    pub fn pwm(&self) -> u32 {
        self.fan_pwm.load(Ordering::Relaxed)
    }

    /// Publish a duty-cycle percentage.
    pub fn set_pwm(&self, v: u32) {
        self.fan_pwm.store(v, Ordering::Relaxed)
    }

    /// The target fan speed most recently published.
    pub fn target_rpm_value(&self) -> u32 {
        self.target_rpm.load(Ordering::Relaxed)
    }

    /// Publish a target fan speed.
    pub fn set_target_rpm(&self, v: u32) {
        self.target_rpm.store(v, Ordering::Relaxed)
    }
}

/// One piece of text the renderer asks the display layer to draw, at
/// a fixed position, in the large or the small font, over the chrome
/// background color.
pub struct TextItem {
    pub text: String,
    pub x: i32,
    pub y: i32,
    pub large: bool,
}

/// A filled rectangle of chrome background.
pub struct RectFill {
    pub x: i32,
    pub y: i32,
    pub width: u32,
    pub height: u32,
}

/// What one render call asks the display layer to do besides the
/// animation band: the vertical band the animation was clipped to,
/// the chrome background color, the telemetry texts, and — on the
/// first paint only — the bottom chrome rectangle.
pub struct RenderPlan {
    pub y_range: (u32, u32),
    pub background: u16,
    pub texts: Vec<TextItem>,
    pub bottom_chrome: Option<RectFill>,
}

/// The measured-speed label: the value right-aligned to four
/// characters, then " RPM".
pub open spec fn spec_rpm_label(rpm: nat) -> Seq<char> {
    spec_pad_left(spec_dec(rpm), 4, ' ') + " RPM"@
}

/// The target-speed label: "T: ", then the value left-aligned to four
/// characters.
pub open spec fn spec_target_label(target: nat) -> Seq<char> {
    "T: "@ + spec_pad_right(spec_dec(target), 4, ' ')
}

/// The duty-cycle label: "PWM:", then the value right-aligned to
/// three characters.
pub open spec fn spec_pwm_label(shown: nat) -> Seq<char> {
    "PWM:"@ + spec_pad_left(spec_dec(shown), 3, ' ')
}

/// Compose the plan of one render call from the telemetry values read
/// at its start. The duty cycle is shown rounded down to a multiple
/// of five, the uptime in its largest fitting unit; the first paint
/// covers the full screen and repaints the bottom chrome.
pub fn compose_plan(
    rpm: u32,
    target_rpm: u32,
    pwm: u32,
    uptime_secs: u64,
    first_paint: bool,
) -> (p: RenderPlan)
    ensures
        p.y_range == (if first_paint {
            (0u32, 240u32)
        } else {
            (30u32, 210u32)
        }),
        p.background == crate::color::spec_rgb888_to_rgb565(255, 182, 140),
        p.texts@.len() == 4,
        p.texts@[0].text@ == spec_rpm_label(rpm as nat),
        p.texts@[0].x == 8 && p.texts@[0].y == 26 && p.texts@[0].large,
        p.texts@[1].text@ == spec_target_label(target_rpm as nat),
        p.texts@[1].x == 10 && p.texts@[1].y == 228 && !p.texts@[1].large,
        p.texts@[2].text@ == spec_uptime_label(uptime_secs as nat),
        p.texts@[2].x == 104 && p.texts@[2].y == 228 && !p.texts@[2].large,
        p.texts@[3].text@ == spec_pwm_label((pwm - pwm % 5) as nat),
        p.texts@[3].x == 160 && p.texts@[3].y == 228 && !p.texts@[3].large,
        first_paint ==> (p.bottom_chrome matches Some(r) && r.x == 0 && r.y == 210 && r.width
            == 240 && r.height == 30),
        !first_paint ==> p.bottom_chrome is None,
{
    let y_range: (u32, u32) = if first_paint {
        (0, 240)
    } else {
        (30, 210)
    };
    let background = crate::color::rgb888_to_rgb565(255, 182, 140);
    let rpm_label = crate::text::pad_left_spaces(crate::text::u64_to_dec(rpm as u64), 4).concat(
        " RPM",
    );
    let target_label = String::from_str("T: ").concat(
        crate::text::pad_right_spaces(crate::text::u64_to_dec(target_rpm as u64), 4).as_str(),
    );
    let uptime_label = crate::text::format_uptime_secs(uptime_secs);
    let shown = pwm - pwm % 5;
    let pwm_label = String::from_str("PWM:").concat(
        crate::text::pad_left_spaces(crate::text::u64_to_dec(shown as u64), 3).as_str(),
    );
    let mut texts: Vec<TextItem> = Vec::new();
    texts.push(TextItem { text: rpm_label, x: 8, y: 26, large: true });
    texts.push(TextItem { text: target_label, x: 10, y: 228, large: false });
    texts.push(TextItem { text: uptime_label, x: 104, y: 228, large: false });
    texts.push(TextItem { text: pwm_label, x: 160, y: 228, large: false });
    let bottom_chrome: Option<RectFill> = if first_paint {
        Some(RectFill { x: 0, y: 210, width: 240, height: 30 })
    } else {
        None
    };
    RenderPlan { y_range, background, texts, bottom_chrome }
}

/// The interface renderer: the shared telemetry, the animation
/// cursor, and the four compressed animation frames.
pub struct Interface {
    pub state: Arc<InterfaceState>,
    pub animation: LeekSpin,
    pub frames: Vec<Vec<u8>>,
}

impl Interface {
    /// The renderer is usable: a valid cursor over exactly four
    /// frames.
    pub open spec fn wf(&self) -> bool {
        self.animation.wf() && self.frames@.len() == 4
    }

    /// A renderer over the given telemetry and frame table. It holds
    /// the caller's shared-state handle, so values the other tasks
    /// publish there are the ones later render calls read.
    pub fn new(state: Arc<InterfaceState>, frames: Vec<Vec<u8>>) -> (r: Interface)
        requires
            frames@.len() == 4,
        ensures
            r.wf(),
            r.state == state,
            r.animation.next_frame == 0,
            r.animation.next_frame_at_ms == 0,
            r.frames == frames,
    {
        Interface { state, animation: LeekSpin::new(), frames }
    }

    /// One render call at `clock_ms`: read the telemetry, let the
    /// animation paint its due frame into `fb` (full screen on the
    /// very first call, otherwise the band between the chrome rows),
    /// and hand back the plan of texts and chrome for the display
    /// layer.
    ///
    /// The telemetry values come from relaxed atomics, so the plan's
    /// label texts are pinned by `compose_plan`'s contract as a
    /// function of whatever values were read; everything else about
    /// the call is pinned here.
    pub fn render(&mut self, fb: &mut FrameBuffer, clock_ms: u32) -> (plan: RenderPlan)
        requires
            old(self).wf(),
            old(fb).wf(),
        ensures
            final(self).wf(),
            final(self).frames == old(self).frames,
            final(self).state == old(self).state,
            final(fb).wf(),
            final(fb).width == old(fb).width,
            final(fb).height == old(fb).height,
            plan.y_range == (if clock_ms == 0 {
                (0u32, 240u32)
            } else {
                (30u32, 210u32)
            }),
            plan.background == crate::color::spec_rgb888_to_rgb565(255, 182, 140),
            plan.texts@.len() == 4,
            (exists|v: u32| plan.texts@[0].text@ == spec_rpm_label(v as nat)),
            plan.texts@[0].x == 8 && plan.texts@[0].y == 26 && plan.texts@[0].large,
            (exists|v: u32| plan.texts@[1].text@ == spec_target_label(v as nat)),
            plan.texts@[1].x == 10 && plan.texts@[1].y == 228 && !plan.texts@[1].large,
            plan.texts@[2].text@ == spec_uptime_label((clock_ms / 1000) as nat),
            plan.texts@[2].x == 104 && plan.texts@[2].y == 228 && !plan.texts@[2].large,
            (exists|v: u32|
                plan.texts@[3].text@ == #[trigger] spec_pwm_label((v - v % 5) as nat)),
            plan.texts@[3].x == 160 && plan.texts@[3].y == 228 && !plan.texts@[3].large,
            clock_ms == 0 ==> (plan.bottom_chrome matches Some(r) && r.x == 0 && r.y == 210
                && r.width == 240 && r.height == 30),
            clock_ms != 0 ==> plan.bottom_chrome is None,
            old(self).animation.next_frame_at_ms > clock_ms ==> {
                &&& final(self).animation == old(self).animation
                &&& *final(fb) == *old(fb)
            },
            old(self).animation.next_frame_at_ms <= clock_ms ==> {
                &&& final(self).animation.next_frame == (old(self).animation.next_frame + 1) % 4
                &&& clock_ms + 90 <= u32::MAX ==> final(self).animation.next_frame_at_ms
                    >= clock_ms + 90
                &&& final(self).animation.next_frame_at_ms <= (if clock_ms + 1000 <= u32::MAX {
                    clock_ms + 1000int
                } else {
                    u32::MAX as int
                })
                &&& match crate::rle_model::spec_parse(
                    old(self).frames@[old(self).animation.next_frame as int]@,
                ) {
                    Some(img) => {
                        let band_lo: nat = if clock_ms == 0 {
                            0
                        } else {
                            30
                        };
                        let band_hi: u32 = if clock_ms == 0 {
                            240
                        } else {
                            210
                        };
                        let yhi: nat = if band_hi <= img.height {
                            band_hi as nat
                        } else {
                            img.height as nat
                        };
                        final(fb).data@ == crate::rle_model::apply_writes(
                            old(fb).data@,
                            crate::rle_model::rle_writes(
                                img.data,
                                img.palette,
                                img.width as nat,
                                band_lo,
                                yhi,
                                0,
                                0,
                            ),
                            old(fb).width as nat,
                        )
                    },
                    None => *final(fb) == *old(fb),
                }
            },
    {
        let first = clock_ms == 0;
        let y_range: (u32, u32) = if first {
            (0, 240)
        } else {
            (30, 210)
        };
        let rpm = self.state.rpm();
        let target = self.state.target_rpm_value();
        let pwm = self.state.pwm();
        self.animation.render(&self.frames, fb, clock_ms, y_range, rpm);
        let plan = compose_plan(rpm, target, pwm, (clock_ms / 1000) as u64, first);
        proof {
            assert(plan.texts@[0].text@ == spec_rpm_label(rpm as nat));
            assert(plan.texts@[1].text@ == spec_target_label(target as nat));
            assert(plan.texts@[3].text@ == spec_pwm_label((pwm - pwm % 5) as nat));
        }
        plan
    }
}

} // verus!
