//! A plain in-memory pixel surface and the batched-write types used to
//! hand decoded pixels to a display transport.
//!
//! The decoder never writes pixel by pixel to a transport: it produces
//! `PixelBatch` values, bounded runs of contiguous row-major pixels,
//! that a caller forwards as single writes.

use vstd::prelude::*;
use crate::rle_model::{apply_writes, contiguous_writes, PixelWrite};

verus! {

/// A width x height framebuffer of packed 16-bit colors, row-major.
pub struct FrameBuffer {
    pub width: u32,
    pub height: u32,
    pub data: Vec<u16>,
}

/// A bounded run of contiguous row-major pixels starting at
/// `(start_x, start_y)`, wrapping at the row edge.
pub struct PixelBatch {
    pub start_x: u32,
    pub start_y: u32,
    pub pixels: Vec<u16>,
}

/// The pixel writes one batch stands for.
pub open spec fn batch_writes(b: PixelBatch, width: nat) -> Seq<PixelWrite> {
    contiguous_writes((b.start_y * width + b.start_x) as nat, width, b.pixels@)
}

/// The pixel writes of a sequence of batches, in order.
pub open spec fn batches_writes(bs: Seq<PixelBatch>, width: nat) -> Seq<PixelWrite>
    decreases bs.len(),
{
    if bs.len() == 0 {
        Seq::empty()
    } else {
        batch_writes(bs[0], width) + batches_writes(bs.skip(1), width)
    }
}

pub proof fn lemma_batches_writes_push(bs: Seq<PixelBatch>, b: PixelBatch, width: nat)
    ensures
        batches_writes(bs.push(b), width) == batches_writes(bs, width) + batch_writes(b, width),
    decreases bs.len(),
{
    if bs.len() == 0 {
        assert(bs.push(b)[0] == b);
        assert(bs.push(b).skip(1) =~= Seq::<PixelBatch>::empty());
        assert(batches_writes(Seq::<PixelBatch>::empty(), width) == Seq::<PixelWrite>::empty());
        assert(batches_writes(bs.push(b), width) =~= batch_writes(b, width));
        assert(batches_writes(bs, width) + batch_writes(b, width) =~= batch_writes(b, width));
    } else {
        assert(bs.push(b).skip(1) =~= bs.skip(1).push(b));
        lemma_batches_writes_push(bs.skip(1), b, width);
        assert(batches_writes(bs.push(b), width) =~= batches_writes(bs, width) + batch_writes(
            b,
            width,
        ));
    }
}

/// A surface after applying a sequence of batches, one by one.
pub open spec fn apply_batches(init: Seq<u16>, bs: Seq<PixelBatch>, width: nat) -> Seq<u16>
    decreases bs.len(),
{
    if bs.len() == 0 {
        init
    } else {
        apply_batches(apply_writes(init, batch_writes(bs[0], width), width), bs.skip(1), width)
    }
}

/// Applying batches one by one performs their writes in order: a
/// caller that forwards a paint's batches singly to a surface ends
/// with the same surface as one paint of all the writes.
pub proof fn lemma_apply_batches(init: Seq<u16>, bs: Seq<PixelBatch>, width: nat)
    ensures
        apply_batches(init, bs, width) == apply_writes(init, batches_writes(bs, width), width),
    decreases bs.len(),
{
    if bs.len() > 0 {
        let init2 = apply_writes(init, batch_writes(bs[0], width), width);
        lemma_apply_batches(init2, bs.skip(1), width);
        crate::rle_model::lemma_apply_writes_append(
            init,
            batch_writes(bs[0], width),
            batches_writes(bs.skip(1), width),
            width,
        );
    }
}

impl FrameBuffer {
    /// The buffer holds exactly one pixel per coordinate.
    pub open spec fn wf(&self) -> bool {
        self.data@.len() == self.width as int * self.height as int
    }

    /// A surface filled with one color.
    pub fn new(width: u32, height: u32, fill: u16) -> (fb: FrameBuffer)
        requires
            width as int * height as int <= usize::MAX as int,
        ensures
            fb.wf(),
            fb.width == width,
            fb.height == height,
            fb.data@ == Seq::new((width as int * height as int) as nat, |k: int| fill),
    {
        let total: usize = (width as usize) * (height as usize);
        let mut data: Vec<u16> = Vec::new();
        let mut k: usize = 0;
        while k < total
            invariant
                k <= total,
                data@.len() == k,
                forall|j: int| 0 <= j < k ==> data@[j] == fill,
            decreases total - k,
        {
            data.push(fill);
            k = k + 1;
        }
        let fb = FrameBuffer { width, height, data };
        proof {
            assert(fb.data@ =~= Seq::new((width as int * height as int) as nat, |j: int| fill));
        }
        fb
    }

    /// The color at a coordinate.
    pub fn pixel(&self, x: u32, y: u32) -> (c: u16)
        requires
            self.wf(),
            x < self.width,
            y < self.height,
        ensures
            c == self.data@[y as int * self.width as int + x as int],
    {
        let total = self.data.len();
        proof {
            let wi = self.width as int;
            let hi = self.height as int;
            let xi = x as int;
            let yi = y as int;
            assert(yi * wi + xi < wi * hi && yi * wi >= 0) by (nonlinear_arith)
                requires
                    0 <= xi < wi,
                    0 <= yi < hi,
            ;
        }
        let idx: usize = (y as usize) * (self.width as usize) + (x as usize);
        self.data[idx]
    }

    /// Apply one batch of contiguous pixels. The batch must fit in the
    /// buffer.
    pub fn write_batch(&mut self, b: &PixelBatch)
        requires
            old(self).wf(),
            old(self).width > 0,
            b.start_y as int * old(self).width as int + b.start_x as int + b.pixels@.len()
                <= old(self).data@.len(),
        ensures
            final(self).wf(),
            final(self).width == old(self).width,
            final(self).height == old(self).height,
            final(self).data@ == apply_writes(
                old(self).data@,
                batch_writes(*b, old(self).width as nat),
                old(self).width as nat,
            ),
    {
        let total = self.data.len();
        let w: usize = self.width as usize;
        let f0: usize = (b.start_y as usize) * w + (b.start_x as usize);
        let ghost init = self.data@;
        let mut k: usize = 0;
        while k < b.pixels.len()
            invariant
                self.wf(),
                self.width == old(self).width,
                self.height == old(self).height,
                w == self.width,
                f0 == b.start_y as int * w as int + b.start_x as int,
                f0 + b.pixels@.len() <= self.data@.len(),
                k <= b.pixels@.len(),
                init.len() == self.data@.len(),
                init.len() <= usize::MAX as int,
                self.data@ == Seq::new(
                    init.len(),
                    |j: int|
                        if f0 <= j < f0 + k {
                            b.pixels@[j - f0]
                        } else {
                            init[j]
                        },
                ),
            decreases b.pixels@.len() - k,
        {
            let c = b.pixels[k];
            self.data.set(f0 + k, c);
            proof {
                assert(self.data@ =~= Seq::new(
                    init.len(),
                    |j: int|
                        if f0 <= j < f0 + k + 1 {
                            b.pixels@[j - f0]
                        } else {
                            init[j]
                        },
                ));
            }
            k = k + 1;
        }
        proof {
            crate::rle_model::lemma_apply_contiguous(
                init,
                f0 as nat,
                self.width as nat,
                b.pixels@,
            );
            assert(self.data@ =~= apply_writes(
                init,
                batch_writes(*b, old(self).width as nat),
                old(self).width as nat,
            ));
        }
    }
}

} // verus!
