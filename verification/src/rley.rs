//! The run-length image codec.
//!
//! `Rgb565Rle` wraps a compressed frame: intrinsic size, palette, packet
//! stream, and an optional vertical clipping window. Painting emits the
//! writes `rle_writes` describes, either directly into a `FrameBuffer`
//! or as bounded `PixelBatch` values for a display transport.

use vstd::prelude::*;
use crate::rle_model::{
    contiguous_writes, le16_at, le32_at, rle_writes, runs_row_bounded, spec_decode, spec_parse,
    spec_run_ext, spec_run_len, spec_stream, PixelWrite, RleImageSpec,
};
use crate::palette::{build_palette, spec_distinct, spec_index_for};
use crate::surface::{batches_writes, FrameBuffer, PixelBatch};

verus! {

/// A parsed compressed frame, ready to paint.
pub struct Rgb565Rle {
    pub width: u32,
    pub height: u32,
    pub palette: Vec<u16>,
    pub data: Vec<u8>,
    pub y_range: Option<(u32, u32)>,
}

impl View for Rgb565Rle {
    type V = RleImageSpec;

    open spec fn view(&self) -> RleImageSpec {
        RleImageSpec {
            width: self.width,
            height: self.height,
            palette: self.palette@,
            data: self.data@,
        }
    }
}

/// Appending one packet's emission to the pixel stream extends its
/// contiguous writes by that packet's run.
proof fn lemma_emit_step(
    f0: nat,
    w: nat,
    out_before: Seq<u16>,
    chunk: Seq<u16>,
    x: nat,
    y: nat,
    color: u16,
)
    requires
        w > 0,
        x < w,
        x + chunk.len() <= w,
        forall|k: int| 0 <= k < chunk.len() ==> chunk[k] == color,
        chunk.len() > 0 ==> y * w + x == f0 + out_before.len(),
    ensures
        contiguous_writes(f0, w, out_before + chunk) == contiguous_writes(f0, w, out_before)
            + crate::rle_model::run_writes(x, y, chunk.len(), color),
{
    let joined = out_before + chunk;
    if chunk.len() == 0 {
        assert(joined =~= out_before);
        assert(crate::rle_model::run_writes(x, y, 0, color) =~= Seq::<PixelWrite>::empty());
        assert(contiguous_writes(f0, w, out_before) + Seq::<PixelWrite>::empty()
            =~= contiguous_writes(f0, w, out_before));
    } else {
        crate::rle_model::lemma_contiguous_split(f0, w, joined, out_before.len() as int);
        assert(joined.take(out_before.len() as int) =~= out_before);
        assert(joined.skip(out_before.len() as int) =~= chunk);
        crate::rle_model::lemma_contiguous_is_run(y, x, w, chunk, color);
    }
}

impl Rgb565Rle {
    /// First row painted: the lower bound of the clipping window.
    pub open spec fn y_lo(&self) -> nat {
        match self.y_range {
            Some((a, b)) => a as nat,
            None => 0,
        }
    }

    /// First row not painted: the upper bound of the clipping window,
    /// capped at the frame height.
    pub open spec fn y_hi(&self) -> nat {
        match self.y_range {
            Some((a, b)) => if b <= self.height {
                b as nat
            } else {
                self.height as nat
            },
            None => self.height as nat,
        }
    }

    /// The writes a paint of this image performs.
    pub open spec fn paint_writes(&self) -> Seq<PixelWrite> {
        rle_writes(
            self.data@,
            self.palette@,
            self.width as nat,
            self.y_lo(),
            self.y_hi(),
            0,
            0,
        )
    }

    /// Parse a compressed frame. `None` exactly on a buffer shorter
    /// than the 9-byte header, a palette size over 64, or a palette
    /// that overruns the buffer.
    pub fn new(data: &[u8]) -> (r: Option<Rgb565Rle>)
        ensures
            r is Some <==> spec_parse(data@) is Some,
            r matches Some(img) ==> {
                &&& img@ == spec_parse(data@)->Some_0
                &&& img.y_range is None
            },
    {
        if data.len() < 9 {
            return None;
        }
        let width: u32 = data[0] as u32 + 256 * (data[1] as u32) + 65536 * (data[2] as u32)
            + 16777216 * (data[3] as u32);
        let height: u32 = data[4] as u32 + 256 * (data[5] as u32) + 65536 * (data[6] as u32)
            + 16777216 * (data[7] as u32);
        let ps: usize = data[8] as usize;
        if ps > 64 || data.len() < 9 + 2 * ps {
            return None;
        }
        proof {
            assert(width == le32_at(data@, 0));
            assert(height == le32_at(data@, 4));
        }
        let mut palette: Vec<u16> = Vec::new();
        let mut k: usize = 0;
        while k < ps
            invariant
                k <= ps,
                ps <= 64,
                9 + 2 * ps <= data@.len(),
                palette@.len() == k,
                forall|j: int| 0 <= j < k ==> palette@[j] == le16_at(data@, 9 + 2 * j),
            decreases ps - k,
        {
            let lo = data[9 + 2 * k];
            let hi = data[9 + 2 * k + 1];
            palette.push(lo as u16 + 256 * (hi as u16));
            k = k + 1;
        }
        let mut tail: Vec<u8> = Vec::new();
        let mut i: usize = 9 + 2 * ps;
        while i < data.len()
            invariant
                9 + 2 * ps <= i <= data@.len(),
                tail@ == data@.subrange(9 + 2 * ps as int, i as int),
            decreases data@.len() - i,
        {
            tail.push(data[i]);
            i = i + 1;
        }
        proof {
            assert(tail@ =~= data@.skip(9 + 2 * ps as int));
            assert(palette@ =~= Seq::new(ps as nat, |j: int| le16_at(data@, 9 + 2 * j)));
        }
        Some(Rgb565Rle { width, height, palette, data: tail, y_range: None })
    }

    /// Restrict painting to the rows in `[y_range.0, y_range.1)`. An
    /// empty range leaves the image unclipped, as a paint of nothing
    /// would be indistinguishable from it anyway.
    pub fn limit(self, y_range: (u32, u32)) -> (r: Rgb565Rle)
        ensures
            r@ == self@,
            r.y_range == (if y_range.0 < y_range.1 {
                Some(y_range)
            } else {
                self.y_range
            }),
    {
        if y_range.0 < y_range.1 {
            Rgb565Rle { y_range: Some(y_range), ..self }
        } else {
            self
        }
    }

    /// Decode the packet stream into the single contiguous row-major
    /// pixel stream a paint emits, together with the coordinate of its
    /// first pixel. Emission is contiguous because once a row inside
    /// the clipping window is reached, every later packet either paints
    /// up to its row edge or stops the decode.
    #[verifier::rlimit(60)]
    pub fn decode_pixels(&self) -> (r: (u32, u32, Vec<u16>))
        ensures
            self.paint_writes() == contiguous_writes(
                (r.1 as nat) * (self.width as nat) + r.0 as nat,
                self.width as nat,
                r.2@,
            ),
            r.2@.len() > 0 ==> r.0 < self.width,
            (r.1 as int) * (self.width as int) + r.0 as int + r.2@.len() <= (self.width as int)
                * (self.height as int),
    {
        let w64: u64 = self.width as u64;
        let ghost w: nat = self.width as nat;
        let ylo64: u64 = match self.y_range {
            Some((a, _)) => a as u64,
            None => 0,
        };
        let yhi64: u64 = match self.y_range {
            Some((_, b)) => if b <= self.height {
                b as u64
            } else {
                self.height as u64
            },
            None => self.height as u64,
        };
        proof {
            assert(ylo64 == self.y_lo());
            assert(yhi64 == self.y_hi());
            assert(yhi64 <= self.height);
        }
        let mut out: Vec<u16> = Vec::new();
        let mut sx: u32 = 0;
        let mut sy: u32 = 0;
        let ghost mut f0: nat = 0nat;
        let mut i: usize = 0;
        let mut x: u64 = 0;
        let mut y: u64 = 0;
        if self.width == 0 {
            proof {
                crate::rle_model::lemma_rle_writes_width0(
                    self.data@, self.palette@, self.y_lo(), self.y_hi(), 0, 0);
                assert(contiguous_writes(0, 0, out@) =~= Seq::<PixelWrite>::empty());
            }
            return (0, 0, out);
        }
        proof {
            assert(self.data@.skip(0) =~= self.data@);
            assert(contiguous_writes(0, w, out@) =~= Seq::<PixelWrite>::empty());
        }
        while i < self.data.len()
            invariant_except_break
                x <= w64 + 255,
                y <= yhi64,
            invariant
                self.width > 0,
                w == self.width as nat,
                w64 == self.width,
                ylo64 == self.y_lo(),
                yhi64 == self.y_hi(),
                yhi64 <= self.height,
                i <= self.data@.len(),
                f0 == (sy as int) * (w as int) + sx as int,
                sx < w64,
                out@.len() == 0 ==> sx == 0 && sy == 0 && f0 == 0,
                out@.len() > 0 ==> sy < yhi64,
                self.paint_writes() == contiguous_writes(f0, w, out@) + rle_writes(
                    self.data@.skip(i as int),
                    self.palette@,
                    w,
                    self.y_lo(),
                    self.y_hi(),
                    x as nat,
                    y as nat,
                ),
                out@.len() > 0 ==> ({
                    let xn: nat = if x >= w64 {
                        0nat
                    } else {
                        x as nat
                    };
                    let yn: nat = if x >= w64 {
                        (y + 1) as nat
                    } else {
                        y as nat
                    };
                    &&& yn * w + xn == f0 + out@.len()
                    &&& yn >= ylo64
                }),
            ensures
                rle_writes(
                    self.data@.skip(i as int),
                    self.palette@,
                    w,
                    self.y_lo(),
                    self.y_hi(),
                    x as nat,
                    y as nat,
                ) == Seq::<PixelWrite>::empty(),
            decreases self.data@.len() - i,
        {
            let ghost x_raw: u64 = x;
            let ghost y_raw: u64 = y;
            if x >= w64 {
                x = 0;
                y = y + 1;
            }
            proof {
                // Normalizing the raw state does not change the writes:
                // the decoder normalizes again at the packet, and a
                // normalized state is a fixed point of that step.
                assert(rle_writes(
                    self.data@.skip(i as int),
                    self.palette@,
                    w,
                    self.y_lo(),
                    self.y_hi(),
                    x_raw as nat,
                    y_raw as nat,
                ) == rle_writes(
                    self.data@.skip(i as int),
                    self.palette@,
                    w,
                    self.y_lo(),
                    self.y_hi(),
                    x as nat,
                    y as nat,
                ));
            }
            if y >= yhi64 {
                proof {
                    assert(rle_writes(
                        self.data@.skip(i as int),
                        self.palette@,
                        w,
                        self.y_lo(),
                        self.y_hi(),
                        x as nat,
                        y as nat,
                    ) =~= Seq::<PixelWrite>::empty());
                }
                break ;
            }
            let packet = self.data[i];
            let is_run = packet >= 128u8;
            let idx: usize = if is_run {
                (packet - 128) as usize
            } else {
                packet as usize
            };
            if idx >= self.palette.len() {
                proof {
                    assert(self.data@.skip(i as int)[0] == self.data@[i as int]);
                    assert(rle_writes(
                        self.data@.skip(i as int),
                        self.palette@,
                        w,
                        self.y_lo(),
                        self.y_hi(),
                        x as nat,
                        y as nat,
                    ) =~= Seq::<PixelWrite>::empty());
                }
                break ;
            }
            let color = self.palette[idx];
            let ghost rest0 = self.data@.skip(i as int);
            let ghost out_before = out@;
            let ghost f0_before = f0;
            if is_run {
                if i + 1 >= self.data.len() {
                    proof {
                        assert(rest0[0] == self.data@[i as int]);
                        assert(rest0.len() == self.data@.len() - i);
                        assert(rle_writes(
                            rest0,
                            self.palette@,
                            w,
                            self.y_lo(),
                            self.y_hi(),
                            x as nat,
                            y as nat,
                        ) =~= Seq::<PixelWrite>::empty());
                    }
                    break ;
                }
                let count: u64 = self.data[i + 1] as u64;
                let emitted: u64 = if count <= w64 - x {
                    count
                } else {
                    w64 - x
                };
                if y >= ylo64 {
                    if out.len() == 0 && emitted > 0 {
                        sx = x as u32;
                        sy = y as u32;
                        proof {
                            f0 = (y as nat) * w + x as nat;
                        }
                    }
                    let ghost out0 = out@;
                    let mut j: u64 = 0;
                    while j < emitted
                        invariant
                            j <= emitted,
                            out@ == out0 + Seq::new(j as nat, |q: int| color),
                        decreases emitted - j,
                    {
                        proof {
                            assert(out@.push(color) =~= out0 + Seq::new(
                                (j + 1) as nat,
                                |q: int| color,
                            ));
                        }
                        out.push(color);
                        j = j + 1;
                    }
                }
                proof {
                    let chunk = Seq::new(emitted as nat, |q: int| color);
                    let rest1 = self.data@.skip(i + 2);
                    assert(rest0.skip(2) =~= rest1);
                    assert(rest0[0] == self.data@[i as int]);
                    assert(rest0[1] == self.data@[i + 1]);
                    let emit_w = rle_writes(
                        rest0, self.palette@, w, self.y_lo(), self.y_hi(), x as nat, y as nat);
                    let rest_w = rle_writes(
                        rest1,
                        self.palette@,
                        w,
                        self.y_lo(),
                        self.y_hi(),
                        (x + count) as nat,
                        y as nat,
                    );
                    if y >= ylo64 {
                        assert(emit_w == crate::rle_model::run_writes(
                            x as nat,
                            y as nat,
                            emitted as nat,
                            color,
                        ) + rest_w);
                        assert(out@ =~= out_before + chunk);
                        lemma_emit_step(
                            f0, w, out_before, chunk, x as nat, y as nat, color);
                        assert(contiguous_writes(f0, w, out@) + rest_w =~= contiguous_writes(
                            f0_before,
                            w,
                            out_before,
                        ) + emit_w);
                        if x + emitted >= w64 {
                            assert((y + 1) as nat * w == (y as nat) * w + w) by {
                                vstd::arithmetic::mul::lemma_mul_is_distributive_add_other_way(
                                    w as int, y as int, 1int);
                            }
                        }
                    } else {
                        assert(emit_w == rest_w);
                    }
                }
                x = x + count;
                i = i + 2;
            } else {
                if y >= ylo64 {
                    if out.len() == 0 {
                        sx = x as u32;
                        sy = y as u32;
                        proof {
                            f0 = (y as nat) * w + x as nat;
                        }
                    }
                    out.push(color);
                }
                proof {
                    let chunk = Seq::new(1nat, |q: int| color);
                    let rest1 = self.data@.skip(i + 1);
                    assert(rest0.skip(1) =~= rest1);
                    assert(rest0[0] == self.data@[i as int]);
                    let emit_w = rle_writes(
                        rest0, self.palette@, w, self.y_lo(), self.y_hi(), x as nat, y as nat);
                    let rest_w = rle_writes(
                        rest1,
                        self.palette@,
                        w,
                        self.y_lo(),
                        self.y_hi(),
                        (x + 1) as nat,
                        y as nat,
                    );
                    if y >= ylo64 {
                        assert(out@ =~= out_before + chunk);
                        assert(crate::rle_model::run_writes(x as nat, y as nat, 1, color)
                            =~= seq![PixelWrite { x: x as nat, y: y as nat, color: color }]);
                        assert(emit_w == crate::rle_model::run_writes(x as nat, y as nat, 1, color)
                            + rest_w);
                        lemma_emit_step(f0, w, out_before, chunk, x as nat, y as nat, color);
                        assert(contiguous_writes(f0, w, out@) + rest_w =~= contiguous_writes(
                            f0_before,
                            w,
                            out_before,
                        ) + emit_w);
                        if x + 1 >= w64 {
                            assert((y + 1) as nat * w == (y as nat) * w + w) by {
                                vstd::arithmetic::mul::lemma_mul_is_distributive_add_other_way(
                                    w as int, y as int, 1int);
                            }
                        }
                    } else {
                        assert(emit_w == rest_w);
                    }
                }
                x = x + 1;
                i = i + 1;
            }
        }
        proof {
            assert(contiguous_writes(f0, w, out@) + Seq::<PixelWrite>::empty()
                =~= contiguous_writes(f0, w, out@));
            if out@.len() > 0 {
                // The stream fits inside the frame: its last write sits at
                // flat position f0 + len - 1, which the write bounds place
                // below width * height.
                let ws = self.paint_writes();
                let k = ws.len() - 1;
                crate::rle_model::lemma_rle_writes_bounds(
                    self.data@, self.palette@, w, self.y_lo(), self.y_hi(), 0, 0);
                vstd::arithmetic::div_mod::lemma_fundamental_div_mod(
                    f0 as int + k, w as int);
                vstd::arithmetic::mul::lemma_mul_is_commutative(
                    w as int, (f0 as int + k) / (w as int));
                assert(ws[k].y * w + ws[k].x == f0 + k);
                assert(ws[k].y <= self.height as int - 1);
                assert(ws[k].y * w <= (self.height as int - 1) * (w as int)) by {
                    vstd::arithmetic::mul::lemma_mul_inequality(
                        ws[k].y as int, self.height as int - 1, w as int);
                }
                assert((self.height as int - 1) * (w as int) + w == (self.height as int) * (
                w as int)) by {
                    vstd::arithmetic::mul::lemma_mul_is_distributive_add_other_way(
                        w as int, self.height as int - 1, 1int);
                }
            }
        }
        (sx, sy, out)
    }

    /// Paint into any surface: perform exactly the writes of
    /// `paint_writes`, honoring the clipping window. A pixel outside
    /// the surface's area is dropped, as a display clips drawing
    /// beyond its edges; a surface of the frame's own size receives
    /// every write.
    pub fn paint(&self, fb: &mut FrameBuffer)
        requires
            old(fb).wf(),
        ensures
            final(fb).wf(),
            final(fb).width == old(fb).width,
            final(fb).height == old(fb).height,
            final(fb).data@ == crate::rle_model::apply_writes(
                old(fb).data@,
                self.paint_writes(),
                old(fb).width as nat,
            ),
    {
        let (sx, sy, pix) = self.decode_pixels();
        let ghost w: nat = self.width as nat;
        let ghost q = pix@;
        let ghost init = fb.data@;
        if pix.len() == 0 {
            proof {
                assert(self.paint_writes() =~= Seq::<PixelWrite>::empty());
            }
            return ;
        }
        let w64: u64 = self.width as u64;
        proof {
            assert((sy as int) * (w as int) <= (self.width as int) * (self.height as int));
            vstd::arithmetic::mul::lemma_mul_upper_bound(
                self.width as int, u32::MAX as int, self.height as int, u32::MAX as int);
        }
        let f0: u64 = (sy as u64) * w64 + (sx as u64);
        let fbw: u32 = fb.width;
        let fbh: u32 = fb.height;
        let fblen: usize = fb.data.len();
        let mut k: usize = 0;
        while k < pix.len()
            invariant
                self.width > 0,
                w == self.width as nat,
                w64 == self.width,
                f0 == (sy as int) * (w as int) + sx as int,
                f0 + q.len() <= (self.width as int) * (self.height as int),
                (self.width as int) * (self.height as int) <= u32::MAX as int * (u32::MAX as int),
                q == pix@,
                q.len() <= usize::MAX as int,
                k <= q.len(),
                fb.wf(),
                fbw == fb.width,
                fbh == fb.height,
                fb.width == old(fb).width,
                fb.height == old(fb).height,
                fblen == fb.data@.len(),
                self.paint_writes() == crate::rle_model::contiguous_writes(f0 as nat, w, q),
                fb.data@ == crate::rle_model::apply_writes(
                    init,
                    crate::rle_model::contiguous_writes(f0 as nat, w, q.take(k as int)),
                    fbw as nat,
                ),
            decreases q.len() - k,
        {
            let flat: u64 = f0 + (k as u64);
            proof {
                vstd::arithmetic::div_mod::lemma_mod_division_less_than_divisor(
                    flat as int, w as int);
                vstd::arithmetic::div_mod::lemma_multiply_divide_lt(
                    flat as int, w as int, self.height as int);
            }
            let xk: u64 = flat % w64;
            let yk: u64 = flat / w64;
            let c = pix[k];
            let ghost wr = PixelWrite { x: xk as nat, y: yk as nat, color: c };
            let ghost before = fb.data@;
            if xk < (fbw as u64) && yk < (fbh as u64) {
                proof {
                    let xi = xk as int;
                    let yi = yk as int;
                    let wi = fbw as int;
                    let hi = fbh as int;
                    assert(yi * wi + xi < wi * hi && yi * wi >= 0) by (nonlinear_arith)
                        requires
                            0 <= xi < wi,
                            0 <= yi < hi,
                    ;
                }
                let idx: usize = (yk as usize) * (fbw as usize) + (xk as usize);
                fb.data.set(idx, c);
                proof {
                    assert(fb.data@ == crate::rle_model::apply_one(before, wr, fbw as nat));
                }
            } else {
                proof {
                    // Outside the surface: the write is dropped.
                    if xk < fbw as u64 {
                        let yi = yk as int;
                        let wi = fbw as int;
                        let hi = fbh as int;
                        assert(yi * wi >= hi * wi) by (nonlinear_arith)
                            requires
                                yi >= hi,
                                wi >= 0,
                        ;
                        assert(crate::rle_model::write_index(wr, fbw as nat) >= fblen);
                    }
                    assert(fb.data@ == crate::rle_model::apply_one(before, wr, fbw as nat));
                }
            }
            proof {
                let done = crate::rle_model::contiguous_writes(f0 as nat, w, q.take(k as int));
                assert(crate::rle_model::contiguous_writes(f0 as nat, w, q.take(k + 1))
                    =~= done + seq![wr]);
                crate::rle_model::lemma_apply_writes_append(init, done, seq![wr], fbw as nat);
                let one = crate::rle_model::apply_one(before, wr, fbw as nat);
                assert(seq![wr].skip(1) =~= Seq::<PixelWrite>::empty());
                assert(seq![wr][0] == wr);
                assert(crate::rle_model::apply_writes(one, Seq::<PixelWrite>::empty(), fbw as nat)
                    == one);
                assert(crate::rle_model::apply_writes(before, seq![wr], fbw as nat) == one);
            }
            k = k + 1;
        }
        proof {
            assert(q.take(q.len() as int) =~= q);
        }
    }

    /// Split the paint into batches of at most `rows_per_batch` rows'
    /// worth of contiguous pixels, for a transport that wants bounded
    /// writes. Applied in order the batches perform exactly the
    /// paint's writes, every batch is at most the chosen capacity, and
    /// all but the last are full, so a paint never takes more batches
    /// than pixels divided by the capacity, plus one.
    pub fn draw_batches(&self, rows_per_batch: u32) -> (bs: Vec<PixelBatch>)
        requires
            1 <= rows_per_batch <= 1024,
        ensures
            batches_writes(bs@, self.width as nat) == self.paint_writes(),
            forall|k: int|
                0 <= k < bs@.len() ==> #[trigger] bs@[k].pixels@.len() <= rows_per_batch as int
                    * self.width as int,
            bs@.len() > 0 ==> (bs@.len() - 1) * (rows_per_batch as int * self.width as int)
                < self.paint_writes().len(),
            forall|k: int|
                0 <= k < bs@.len() ==> (#[trigger] bs@[k].start_y as int) * (self.width as int)
                    + bs@[k].start_x as int + bs@[k].pixels@.len() <= (self.width as int) * (
                self.height as int),
    {
        let (sx, sy, pix) = self.decode_pixels();
        let ghost w: nat = self.width as nat;
        let ghost q = pix@;
        let mut bs: Vec<PixelBatch> = Vec::new();
        if pix.len() == 0 {
            proof {
                assert(self.paint_writes() =~= Seq::<PixelWrite>::empty());
                assert(batches_writes(bs@, w) == Seq::<PixelWrite>::empty());
            }
            return bs;
        }
        let w64: u64 = self.width as u64;
        proof {
            assert((sy as int) * (w as int) <= (self.width as int) * (self.height as int));
            vstd::arithmetic::mul::lemma_mul_upper_bound(
                self.width as int, u32::MAX as int, self.height as int, u32::MAX as int);
            vstd::arithmetic::mul::lemma_mul_upper_bound(
                rows_per_batch as int, 1024int, w64 as int, u32::MAX as int);
        }
        let cap64: u64 = (rows_per_batch as u64) * w64;
        let ghost capi: int = rows_per_batch as int * self.width as int;
        let f0: u64 = (sy as u64) * w64 + (sx as u64);
        let mut pos: usize = 0;
        while pos < pix.len()
            invariant
                self.width > 0,
                w == self.width as nat,
                w64 == self.width,
                1 <= rows_per_batch <= 1024,
                cap64 == rows_per_batch as int * self.width as int,
                capi == cap64,
                f0 == (sy as int) * (w as int) + sx as int,
                f0 + q.len() <= (self.width as int) * (self.height as int),
                (self.width as int) * (self.height as int) <= u32::MAX as int * (u32::MAX as int),
                q == pix@,
                q.len() > 0,
                q.len() <= usize::MAX as int,
                pos <= q.len(),
                self.paint_writes() == crate::rle_model::contiguous_writes(f0 as nat, w, q),
                batches_writes(bs@, w) == crate::rle_model::contiguous_writes(
                    f0 as nat,
                    w,
                    q.take(pos as int),
                ),
                forall|k: int|
                    0 <= k < bs@.len() ==> #[trigger] bs@[k].pixels@.len() <= capi,
                forall|k: int|
                    0 <= k < bs@.len() ==> (#[trigger] bs@[k].start_y as int) * (self.width as int)
                        + bs@[k].start_x as int + bs@[k].pixels@.len() <= (self.width as int) * (
                    self.height as int),
                pos == bs@.len() * capi || (pos == q.len() && bs@.len() > 0 && (bs@.len() - 1)
                    * capi < pos),
            decreases q.len() - pos,
        {
            proof {
                assert(capi >= 1) by (nonlinear_arith)
                    requires
                        capi == rows_per_batch as int * self.width as int,
                        rows_per_batch >= 1,
                        self.width >= 1,
                ;
            }
            let remaining: usize = pix.len() - pos;
            let cnt: usize = if (remaining as u64) <= cap64 {
                remaining
            } else {
                cap64 as usize
            };
            let start_flat: u64 = f0 + (pos as u64);
            proof {
                vstd::arithmetic::div_mod::lemma_fundamental_div_mod(
                    start_flat as int, w as int);
                vstd::arithmetic::mul::lemma_mul_is_commutative(
                    w as int, start_flat as int / (w as int));
                vstd::arithmetic::div_mod::lemma_multiply_divide_lt(
                    start_flat as int, w as int, self.height as int);
                vstd::arithmetic::div_mod::lemma_mod_division_less_than_divisor(
                    start_flat as int, w as int);
            }
            let bx: u32 = (start_flat % w64) as u32;
            let by: u32 = (start_flat / w64) as u32;
            let mut chunk: Vec<u16> = Vec::new();
            let mut t: usize = 0;
            while t < cnt
                invariant
                    t <= cnt,
                    pos + cnt <= q.len(),
                    q.len() <= usize::MAX as int,
                    q == pix@,
                    chunk@ == q.subrange(pos as int, pos + t),
                decreases cnt - t,
            {
                proof {
                    assert(chunk@.push(q[pos + t]) =~= q.subrange(pos as int, pos + t + 1));
                }
                chunk.push(pix[pos + t]);
                t = t + 1;
            }
            let ghost bs_before = bs@;
            let b = PixelBatch { start_x: bx, start_y: by, pixels: chunk };
            bs.push(b);
            proof {
                crate::surface::lemma_batches_writes_push(bs_before, b, w);
                assert((by as int) * (w as int) + bx as int == start_flat);
                crate::rle_model::lemma_contiguous_split(
                    f0 as nat, w, q.take(pos + cnt), pos as int);
                assert(q.take(pos + cnt).take(pos as int) =~= q.take(pos as int));
                assert(q.take(pos + cnt).skip(pos as int) =~= q.subrange(pos as int, pos + cnt));
                assert(crate::surface::batch_writes(b, w) == crate::rle_model::contiguous_writes(
                    start_flat as nat,
                    w,
                    b.pixels@,
                ));
                assert(batches_writes(bs@, w) =~= crate::rle_model::contiguous_writes(
                    f0 as nat,
                    w,
                    q.take(pos + cnt),
                ));
                // The batch count stays in step with the positions covered.
                vstd::arithmetic::mul::lemma_mul_is_distributive_add_other_way(
                    capi, bs_before.len() as int, 1int);
            }
            pos = pos + cnt;
        }
        proof {
            assert(q.take(pos as int) =~= q);
            if pos == bs@.len() * capi {
                vstd::arithmetic::mul::lemma_mul_is_distributive_sub_other_way(
                    capi, bs@.len() as int, 1int);
            }
        }
        bs
    }

    /// Encode a frame as a compressed byte buffer: little-endian width
    /// and height, palette size, palette, then greedy runs capped at
    /// 255 and at the end of each row.
    ///
    /// Decoding the result recovers the frame exactly whenever it has
    /// at most 64 distinct colors; otherwise it recovers the frame
    /// with each pixel replaced by its palette representative.
    #[verifier::rlimit(60)]
    pub fn encode(width: u32, height: u32, pixels: &Vec<u16>) -> (out: Vec<u8>)
        requires
            pixels@.len() == width as int * height as int,
        ensures
            spec_parse(out@) is Some,
            spec_parse(out@)->Some_0.width == width,
            spec_parse(out@)->Some_0.height == height,
            spec_parse(out@)->Some_0.palette.len() <= 64,
            out@.len() >= 9 && out@[8] as int <= 64,
            spec_parse(out@)->Some_0.data == spec_stream(
                pixels@,
                Seq::new(
                    pixels@.len(),
                    |k: int|
                        spec_index_for(
                            spec_parse(out@)->Some_0.palette,
                            pixels@[k],
                        ) as u8,
                ),
                width as nat,
                0,
            ),
            runs_row_bounded(spec_parse(out@)->Some_0.data, width as nat, 0),
            spec_decode(out@) is Some,
            spec_decode(out@)->Some_0.2.len() == pixels@.len(),
            forall|k: int|
                0 <= k < pixels@.len() ==> spec_parse(out@)->Some_0.palette.contains(
                    #[trigger] spec_decode(out@)->Some_0.2[k],
                ),
            spec_distinct(pixels@) <= 64 ==> spec_decode(out@)->Some_0.2 == pixels@,
    {
        let (pal, idxs) = build_palette(pixels, 64);
        let ghost w: nat = width as nat;
        let mut out: Vec<u8> = Vec::new();
        out.push((width % 256) as u8);
        out.push(((width / 256) % 256) as u8);
        out.push(((width / 65536) % 256) as u8);
        out.push(((width / 16777216) % 256) as u8);
        out.push((height % 256) as u8);
        out.push(((height / 256) % 256) as u8);
        out.push(((height / 65536) % 256) as u8);
        out.push(((height / 16777216) % 256) as u8);
        out.push(pal.len() as u8);
        proof {
            assert(width % 256 + 256 * ((width / 256) % 256) + 65536 * ((width / 65536) % 256)
                + 16777216 * ((width / 16777216) % 256) == width) by (bit_vector);
            assert(height % 256 + 256 * ((height / 256) % 256) + 65536 * ((height / 65536) % 256)
                + 16777216 * ((height / 16777216) % 256) == height) by (bit_vector);
            assert(le32_at(out@, 0) == width);
            assert(le32_at(out@, 4) == height);
        }
        let ghost hdr = out@;
        let mut pp: usize = 0;
        while pp < pal.len()
            invariant
                pp <= pal@.len(),
                pal@.len() <= 64,
                hdr.len() == 9,
                out@.len() == 9 + 2 * pp,
                out@.take(9) == hdr,
                forall|j: int|
                    0 <= j < pp ==> le16_at(out@, 9 + 2 * j) == #[trigger] pal@[j],
            decreases pal@.len() - pp,
        {
            let c = pal[pp];
            out.push((c % 256) as u8);
            out.push((c / 256) as u8);
            proof {
                vstd::arithmetic::div_mod::lemma_fundamental_div_mod(c as int, 256);
                assert(out@.take(9) =~= hdr);
            }
            pp = pp + 1;
        }
        let ghost base = out@;
        let np: usize = pixels.len();
        let w_us: usize = width as usize;
        let mut i: usize = 0;
        while i < np
            invariant
                i <= np,
                np == pixels@.len(),
                np > 0 ==> width > 0,
                w == width as nat,
                w_us == width,
                pixels@.len() == width as int * height as int,
                idxs@.len() == pixels@.len(),
                pal@.len() <= 64,
                forall|k: int|
                    0 <= k < pixels@.len() ==> (#[trigger] idxs@[k] as int) < pal@.len(),
                base.len() >= 9,
                out@.len() >= base.len(),
                out@.take(base.len() as int) == base,
                spec_stream(pixels@, idxs@, w, 0) == out@.skip(base.len() as int) + spec_stream(
                    pixels@,
                    idxs@,
                    w,
                    i as nat,
                ),
            decreases np - i,
        {
            proof {
                crate::rle_model::lemma_run_len_bounds(pixels@, w, i as nat);
                vstd::arithmetic::div_mod::lemma_mod_division_less_than_divisor(
                    i as int, width as int);
                vstd::arithmetic::div_mod::lemma_fundamental_div_mod(i as int, width as int);
                vstd::arithmetic::div_mod::lemma_multiply_divide_lt(
                    i as int, width as int, height as int);
                vstd::arithmetic::mul::lemma_mul_is_distributive_add_other_way(
                    width as int, i as int / width as int, 1int);
                vstd::arithmetic::mul::lemma_mul_left_inequality(
                    width as int, i as int / width as int + 1, height as int);
                assert(i as int + (width as int - i as int % width as int) <= np);
            }
            let room: usize = w_us - (i % w_us);
            let cap: usize = if room <= 255 {
                room
            } else {
                255
            };
            let c = pixels[i];
            let mut rl: usize = 1;
            while i + rl < np && rl < cap && pixels[i + rl] == c
                invariant
                    np == pixels@.len(),
                    i < np,
                    c == pixels@[i as int],
                    1 <= rl <= cap,
                    cap <= 255,
                    i + rl <= np,
                    i + cap <= np,
                    forall|j: int| i <= j < i + rl ==> pixels@[j] == c,
                    spec_run_ext(pixels@, c, (i + 1) as nat, (cap - 1) as nat) == (rl - 1)
                        + spec_run_ext(pixels@, c, (i + rl) as nat, (cap - rl) as nat),
                decreases cap - rl,
            {
                rl = rl + 1;
            }
            proof {
                // The loop stopped for one of the three reasons; each
                // zeroes the remaining extension, so rl is the run length.
                assert(spec_run_ext(pixels@, c, (i + rl) as nat, (cap - rl) as nat) == 0);
                assert(rl == spec_run_len(pixels@, w, i as nat));
            }
            let id = idxs[i];
            let ghost out_before = out@;
            if rl == 1 {
                out.push(id);
            } else {
                out.push(128 + id);
                out.push(rl as u8);
            }
            proof {
                let l = spec_run_len(pixels@, w, i as nat);
                let head: Seq<u8> = if l == 1 {
                    seq![idxs@[i as int]]
                } else {
                    seq![(128 + idxs@[i as int]) as u8, l as u8]
                };
                let tail = spec_stream(pixels@, idxs@, w, i as nat + l);
                assert(spec_stream(pixels@, idxs@, w, i as nat) == head + tail);
                assert(out@ =~= out_before + head);
                assert(out@.take(base.len() as int) =~= base);
                assert(out@.skip(base.len() as int) =~= out_before.skip(base.len() as int)
                    + head);
                assert(out@.skip(base.len() as int) + tail =~= out_before.skip(
                    base.len() as int,
                ) + spec_stream(pixels@, idxs@, w, i as nat));
            }
            i = i + rl;
        }
        proof {
            assert(spec_stream(pixels@, idxs@, w, np as nat) == Seq::<u8>::empty());
            assert(out@.skip(base.len() as int) + Seq::<u8>::empty() =~= out@.skip(
                base.len() as int,
            ));
            let stream = out@.skip(base.len() as int);
            assert(stream == spec_stream(pixels@, idxs@, w, 0));
            // The header and palette bytes still sit where they were
            // pushed, so the buffer parses back to this frame.
            assert(forall|j: int| 0 <= j < base.len() ==> out@[j] == base[j]);
            assert(forall|j: int| 0 <= j < 9 ==> base[j] == hdr[j]);
            assert(hdr[8] == pal@.len() as u8);
            assert(out@[8] == pal@.len() as u8);
            assert(le32_at(out@, 0) == le32_at(hdr, 0));
            assert(le32_at(out@, 4) == le32_at(hdr, 4));
            let ps = pal@.len() as int;
            assert(out@.len() >= 9 + 2 * ps);
            let img = spec_parse(out@)->Some_0;
            assert(img.width == width && img.height == height);
            assert forall|j: int| 0 <= j < ps implies le16_at(out@, 9 + 2 * j) == pal@[j] by {
                assert(le16_at(base, 9 + 2 * j) == pal@[j]);
            }
            assert(img.palette =~= pal@);
            assert(img.data =~= stream);
            // The stream is the greedy-run encoding over the per-pixel
            // palette indices, which the palette builder pins exactly.
            assert(Seq::new(
                pixels@.len(),
                |k: int| spec_index_for(img.palette, pixels@[k]) as u8,
            ) =~= idxs@);
            // The stream is row-disciplined (every run complete, in
            // bounds, and inside its row).
            if np > 0 {
                vstd::arithmetic::div_mod::lemma_small_mod(0, w);
                assert(0int % (width as int) == 0);
                crate::rle_model::lemma_stream_runs_row_bounded(pixels@, idxs@, w, 0, 0);
            } else {
                assert(stream =~= Seq::<u8>::empty());
            }
            assert(runs_row_bounded(img.data, w, 0));
            // Decoding the stream paints the quantized frame.
            let q = crate::rle_model::quantized(pixels@, idxs@, pal@);
            let zeros = Seq::new((width as int * height as int) as nat, |k: int| 0u16);
            if np > 0 {
                assert forall|a: int, b: int|
                    0 <= a < pixels@.len() && 0 <= b < pixels@.len() && pixels@[a]
                        == pixels@[b] implies idxs@[a] == idxs@[b] by {
                    assert(idxs@[a] as nat == spec_index_for(pal@, pixels@[a]));
                    assert(idxs@[b] as nat == spec_index_for(pal@, pixels@[b]));
                }
                vstd::arithmetic::div_mod::lemma_small_mod(0, w);
                vstd::arithmetic::div_mod::lemma_div_of0(width as int);
                crate::rle_model::lemma_stream_decodes(
                    pixels@, idxs@, pal@, w, height as nat, 0, 0, 0);
                assert(q.skip(0) =~= q);
                assert(rle_writes(stream, pal@, w, 0, height as nat, 0, 0)
                    == contiguous_writes(0, w, q));
                crate::rle_model::lemma_apply_contiguous(zeros, 0, w, q);
                assert(crate::rle_model::apply_writes(
                    zeros,
                    rle_writes(img.data, img.palette, w, 0, img.height as nat, 0, 0),
                    w,
                ) =~= q);
            } else {
                assert(stream =~= Seq::<u8>::empty());
                assert(rle_writes(img.data, img.palette, w, 0, img.height as nat, 0, 0)
                    == Seq::<PixelWrite>::empty());
                assert(crate::rle_model::apply_writes(
                    zeros,
                    rle_writes(img.data, img.palette, w, 0, img.height as nat, 0, 0),
                    w,
                ) =~= q);
            }
            assert forall|k: int| 0 <= k < pixels@.len() implies img.palette.contains(
                #[trigger] spec_decode(out@)->Some_0.2[k],
            ) by {
                assert(spec_decode(out@)->Some_0.2[k] == pal@[idxs@[k] as int]);
            }
            if spec_distinct(pixels@) <= 64 {
                assert forall|k: int| 0 <= k < q.len() implies q[k] == pixels@[k] by {
                    assert(pal@[idxs@[k] as int] == pixels@[k]);
                }
                assert(q =~= pixels@);
            }
        }
        out
    }

    /// Parse a buffer and paint every row of it over a black surface
    /// of its own size. `None` exactly on a malformed header, or on a
    /// frame with more than `max_pixels` pixels — the bound callers
    /// put on the allocation a hostile buffer can demand.
    pub fn decode(bytes: &[u8], max_pixels: usize) -> (r: Option<(u32, u32, Vec<u16>)>)
        ensures
            match spec_parse(bytes@) {
                None => r is None,
                Some(img) => if img.width as int * img.height as int <= max_pixels as int {
                    &&& r is Some
                    &&& r->Some_0.0 == img.width
                    &&& r->Some_0.1 == img.height
                    &&& r->Some_0.2@ == spec_decode(bytes@)->Some_0.2
                } else {
                    r is None
                },
            },
    {
        match Rgb565Rle::new(bytes) {
            None => None,
            Some(img) => {
                let w = img.size_width();
                let h = img.size_height();
                proof {
                    vstd::arithmetic::mul::lemma_mul_upper_bound(
                        w as int, u32::MAX as int, h as int, u32::MAX as int);
                }
                if (w as u64) * (h as u64) > (max_pixels as u64) {
                    return None;
                }
                let mut fb = FrameBuffer::new(w, h, 0);
                img.paint(&mut fb);
                proof {
                    assert(img.y_lo() == 0 && img.y_hi() == h as nat);
                    assert(fb.data@ =~= spec_decode(bytes@)->Some_0.2);
                }
                Some((w, h, fb.data))
            },
        }
    }

    /// Frame width in pixels.
    pub fn size_width(&self) -> (w: u32)
        ensures
            w == self.width,
    {
        self.width
    }

    /// Frame height in pixels.
    pub fn size_height(&self) -> (h: u32)
        ensures
            h == self.height,
    {
        self.height
    }
}

/// Clipping law: painting an image limited to the rows `[a, b)`
/// performs exactly the writes of the full paint that fall in those
/// rows, in the same order, and touches no row outside them.
pub proof fn lemma_limit_clips(full: Rgb565Rle, clipped: Rgb565Rle, a: u32, b: u32)
    requires
        full.y_range is None,
        clipped@ == full@,
        clipped.y_range == Some((a, b)),
        a < b,
    ensures
        clipped.paint_writes() == full.paint_writes().filter(
            crate::rle_model::row_window(a as nat, b as nat),
        ),
        forall|k: int|
            0 <= k < clipped.paint_writes().len() ==> a as nat
                <= #[trigger] clipped.paint_writes()[k].y < b as nat,
{
    crate::rle_model::lemma_rle_writes_clip(
        full.data@,
        full.palette@,
        full.width as nat,
        full.height as nat,
        a as nat,
        b as nat,
        0,
        0,
    );
    crate::rle_model::lemma_rle_writes_bounds(
        clipped.data@,
        clipped.palette@,
        clipped.width as nat,
        clipped.y_lo(),
        clipped.y_hi(),
        0,
        0,
    );
}

} // verus!
