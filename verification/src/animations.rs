//! The looping animation: four precompressed frames cycled by a small
//! state machine. A render request before the due time does nothing;
//! otherwise the current frame is painted, the cursor moves to the
//! next of the four frames, and the next advance is scheduled after a
//! delay that falls as the measured speed rises.

use vstd::prelude::*;
use crate::rle_model::{apply_writes, rle_writes, spec_parse};
use crate::rley::Rgb565Rle;
use crate::surface::FrameBuffer;

verus! {

/// Frame advance delay in milliseconds for a measured speed: 1000 ms
/// at standstill, falling linearly to 90 ms at 2000 RPM and beyond.
pub open spec fn spec_frame_delay(rpm: nat) -> int {
    let capped: int = if rpm <= 2000 {
        rpm as int
    } else {
        2000
    };
    1000 - (910 * capped) / 2000
}

/// The speed-dependent frame delay.
pub fn frame_delay_ms(rpm: u32) -> (d: u32)
    ensures
        d == spec_frame_delay(rpm as nat),
        90 <= d <= 1000,
        rpm == 0 ==> d == 1000,
        rpm >= 2000 ==> d == 90,
{
    let capped: u32 = if rpm >= 2000 {
        2000
    } else {
        rpm
    };
    proof {
        assert(0 <= (910 * capped as int) / 2000 <= 910) by (nonlinear_arith)
            requires
                0 <= capped <= 2000,
        ;
    }
    1000 - (910 * capped) / 2000
}

/// The delay never rises with the speed.
pub proof fn lemma_frame_delay_monotone(r1: nat, r2: nat)
    requires
        r1 <= r2,
    ensures
        spec_frame_delay(r2) <= spec_frame_delay(r1),
{
    let c1: int = if r1 <= 2000 {
        r1 as int
    } else {
        2000
    };
    let c2: int = if r2 <= 2000 {
        r2 as int
    } else {
        2000
    };
    vstd::arithmetic::div_mod::lemma_div_is_ordered(910 * c1, 910 * c2, 2000);
}

/// The animation cursor: which frame comes next, and when.
pub struct LeekSpin {
    pub next_frame: u8,
    pub next_frame_at_ms: u32,
}

impl LeekSpin {
    /// The cursor always points at one of the four frames.
    pub open spec fn wf(&self) -> bool {
        self.next_frame < 4
    }

    /// A fresh cursor: first frame, due immediately.
    pub fn new() -> (s: LeekSpin)
        ensures
            s.wf(),
            s.next_frame == 0,
            s.next_frame_at_ms == 0,
    {
        LeekSpin { next_frame: 0, next_frame_at_ms: 0 }
    }

    /// One render request at `clock_ms`.
    ///
    /// Before the due time nothing changes. Otherwise the due frame —
    /// provided it parses — is painted into `fb` clipped to `y_range`
    /// (and by the surface's own edges), the cursor advances modulo
    /// four, and the next advance is due after the speed-dependent
    /// delay (saturating at the end of the clock's range).
    pub fn render(
        &mut self,
        frames: &Vec<Vec<u8>>,
        fb: &mut FrameBuffer,
        clock_ms: u32,
        y_range: (u32, u32),
        rpm: u32,
    ) -> (painted: bool)
        requires
            old(self).wf(),
            frames@.len() == 4,
            old(fb).wf(),
        ensures
            final(self).wf(),
            final(fb).wf(),
            final(fb).width == old(fb).width,
            final(fb).height == old(fb).height,
            old(self).next_frame_at_ms > clock_ms ==> {
                &&& *final(self) == *old(self)
                &&& *final(fb) == *old(fb)
                &&& !painted
            },
            old(self).next_frame_at_ms <= clock_ms ==> {
                &&& final(self).next_frame == (old(self).next_frame + 1) % 4
                &&& final(self).next_frame_at_ms == (if clock_ms + spec_frame_delay(rpm as nat)
                    <= u32::MAX {
                    clock_ms + spec_frame_delay(rpm as nat)
                } else {
                    u32::MAX as int
                })
                &&& match spec_parse(frames@[old(self).next_frame as int]@) {
                    Some(img) => {
                        let ylo: nat = if y_range.0 < y_range.1 {
                            y_range.0 as nat
                        } else {
                            0
                        };
                        let yhi: nat = if y_range.0 < y_range.1 {
                            if y_range.1 <= img.height {
                                y_range.1 as nat
                            } else {
                                img.height as nat
                            }
                        } else {
                            img.height as nat
                        };
                        &&& painted
                        &&& final(fb).data@ == apply_writes(
                            old(fb).data@,
                            rle_writes(
                                img.data,
                                img.palette,
                                img.width as nat,
                                ylo,
                                yhi,
                                0,
                                0,
                            ),
                            old(fb).width as nat,
                        )
                    },
                    None => !painted && *final(fb) == *old(fb),
                }
            },
    {
        if self.next_frame_at_ms > clock_ms {
            return false;
        }
        let data: &Vec<u8> = &frames[self.next_frame as usize];
        let mut painted = false;
        match Rgb565Rle::new(data.as_slice()) {
            Some(img0) => {
                let img = img0.limit(y_range);
                img.paint(fb);
                painted = true;
            },
            None => {},
        }
        self.next_frame = (self.next_frame + 1) % 4;
        let delay = frame_delay_ms(rpm);
        self.next_frame_at_ms = if clock_ms <= u32::MAX - delay {
            clock_ms + delay
        } else {
            u32::MAX
        };
        painted
    }
}

} // verus!
