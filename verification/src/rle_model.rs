//! Mathematical model of the compressed-frame byte format.
//!
//! A compressed frame is: a 4-byte little-endian width, a 4-byte
//! little-endian height, a palette size byte (at most 64), the palette
//! as little-endian 16-bit packed colors, and then a stream of pixel
//! packets. A packet whose first byte is below 128 is a literal (the
//! byte is a palette index, one pixel); otherwise the byte minus 128 is
//! the palette index and a second byte gives the run length.
//!
//! `rle_writes` is the meaning of a packet stream: the ordered sequence
//! of pixel writes a decoder performs, including the clipping of
//! malformed runs at the row edge, the early stops on a bad palette
//! index or a truncated run packet, and the optional vertical clipping
//! window. All decoding, painting and encoding contracts are stated
//! against it.

use vstd::prelude::*;

verus! {

/// One pixel written by the decoder: column, row, packed color.
pub struct PixelWrite {
    pub x: nat,
    pub y: nat,
    pub color: u16,
}

/// A parsed compressed frame: the header fields, the palette, and the
/// remaining packet stream.
pub struct RleImageSpec {
    pub width: u32,
    pub height: u32,
    pub palette: Seq<u16>,
    pub data: Seq<u8>,
}

/// The 32-bit little-endian value at offset `off`.
pub open spec fn le32_at(b: Seq<u8>, off: int) -> u32 {
    (b[off] + 256 * b[off + 1] + 65536 * b[off + 2] + 16777216 * b[off + 3]) as u32
}

/// The palette entry described by the byte pair at offset `off`.
pub open spec fn le16_at(b: Seq<u8>, off: int) -> u16 {
    (b[off] + 256 * b[off + 1]) as u16
}

/// Header and palette parsing. `None` on a buffer shorter than the
/// 9-byte header, a palette size over 64, or a palette that does not
/// fit in the buffer.
pub open spec fn spec_parse(b: Seq<u8>) -> Option<RleImageSpec> {
    if b.len() < 9 {
        None
    } else {
        let ps = b[8] as int;
        if ps > 64 || b.len() < 9 + 2 * ps {
            None
        } else {
            Some(
                RleImageSpec {
                    width: le32_at(b, 0),
                    height: le32_at(b, 4),
                    palette: Seq::new(ps as nat, |k: int| le16_at(b, 9 + 2 * k)),
                    data: b.skip(9 + 2 * ps),
                },
            )
        }
    }
}

/// The writes of one run: `n` pixels of one color, walking right from
/// column `x` in row `y`.
pub open spec fn run_writes(x: nat, y: nat, n: nat, color: u16) -> Seq<PixelWrite> {
    Seq::new(n, |j: int| PixelWrite { x: (x + j) as nat, y: y, color: color })
}

/// The pixel writes a decoder performs on packet stream `data`.
///
/// `(x, y)` is the raw scan position: at each packet it is first
/// normalized (a position at or past the row edge moves to the start of
/// the next row), painting stops once the row reaches `y_stop`, rows
/// before `y_min` are skipped but still advance the position, a run is
/// clipped to the pixels left in its row, and a palette index at or
/// past `pal.len()` or a truncated run packet stops painting.
pub open spec fn rle_writes(
    data: Seq<u8>,
    pal: Seq<u16>,
    width: nat,
    y_min: nat,
    y_stop: nat,
    x: nat,
    y: nat,
) -> Seq<PixelWrite>
    decreases data.len(),
{
    if data.len() == 0 {
        Seq::empty()
    } else {
        let xn: nat = if x >= width { 0 } else { x };
        let yn: nat = if x >= width { y + 1 } else { y };
        if yn >= y_stop {
            Seq::empty()
        } else {
            let packet = data[0];
            let is_run = packet >= 128;
            let idx: nat = if is_run { (packet - 128) as nat } else { packet as nat };
            if idx >= pal.len() {
                Seq::empty()
            } else if is_run {
                if data.len() < 2 {
                    Seq::empty()
                } else {
                    let count = data[1] as nat;
                    let emitted: nat = if count <= width - xn { count } else { (width - xn) as nat };
                    let emit: Seq<PixelWrite> = if yn >= y_min {
                        run_writes(xn, yn, emitted, pal[idx as int])
                    } else {
                        Seq::empty()
                    };
                    emit + rle_writes(data.skip(2), pal, width, y_min, y_stop, xn + count, yn)
                }
            } else {
                let emit: Seq<PixelWrite> = if yn >= y_min && xn < width {
                    seq![PixelWrite { x: xn, y: yn, color: pal[idx as int] }]
                } else {
                    Seq::empty()
                };
                emit + rle_writes(data.skip(1), pal, width, y_min, y_stop, xn + 1, yn)
            }
        }
    }
}

/// Every write of a packet stream lies in the clipping window and
/// inside the row width, and rows never run backwards: each write's
/// row is at least the normalized current row.
pub proof fn lemma_rle_writes_bounds(
    data: Seq<u8>,
    pal: Seq<u16>,
    width: nat,
    y_min: nat,
    y_stop: nat,
    x: nat,
    y: nat,
)
    ensures
        forall|k: int|
            0 <= k < rle_writes(data, pal, width, y_min, y_stop, x, y).len() ==> {
                let w = #[trigger] rle_writes(data, pal, width, y_min, y_stop, x, y)[k];
                &&& w.x < width
                &&& y_min <= w.y < y_stop
                &&& w.y >= (if x >= width { y + 1 } else { y })
            },
    decreases data.len(),
{
    if data.len() > 0 {
        let xn: nat = if x >= width { 0 } else { x };
        let yn: nat = if x >= width { y + 1 } else { y };
        let all = rle_writes(data, pal, width, y_min, y_stop, x, y);
        if yn < y_stop {
            let packet = data[0];
            let is_run = packet >= 128;
            let idx: nat = if is_run { (packet - 128) as nat } else { packet as nat };
            if idx < pal.len() {
                if is_run {
                    if data.len() >= 2 {
                        let count = data[1] as nat;
                        let emitted: nat = if count <= width - xn {
                            count
                        } else {
                            (width - xn) as nat
                        };
                        let emit: Seq<PixelWrite> = if yn >= y_min {
                            run_writes(xn, yn, emitted, pal[idx as int])
                        } else {
                            Seq::empty()
                        };
                        let rest = rle_writes(data.skip(2), pal, width, y_min, y_stop, xn + count, yn);
                        lemma_rle_writes_bounds(
                            data.skip(2), pal, width, y_min, y_stop, xn + count, yn);
                        assert forall|k: int| 0 <= k < all.len() implies {
                            let w = #[trigger] all[k];
                            &&& w.x < width
                            &&& y_min <= w.y < y_stop
                            &&& w.y >= yn
                        } by {
                            if k < emit.len() {
                                assert(all[k] == emit[k]);
                            } else {
                                assert(all[k] == rest[k - emit.len()]);
                            }
                        }
                    }
                } else {
                    let emit: Seq<PixelWrite> = if yn >= y_min && xn < width {
                        seq![PixelWrite { x: xn, y: yn, color: pal[idx as int] }]
                    } else {
                        Seq::empty()
                    };
                    let rest = rle_writes(data.skip(1), pal, width, y_min, y_stop, xn + 1, yn);
                    lemma_rle_writes_bounds(data.skip(1), pal, width, y_min, y_stop, xn + 1, yn);
                    assert forall|k: int| 0 <= k < all.len() implies {
                        let w = #[trigger] all[k];
                        &&& w.x < width
                        &&& y_min <= w.y < y_stop
                        &&& w.y >= yn
                    } by {
                        if k < emit.len() {
                            assert(all[k] == emit[k]);
                        } else {
                            assert(all[k] == rest[k - emit.len()]);
                        }
                    }
                }
            }
        }
    }
}

/// The predicate selecting writes whose row lies in `[a, b)`.
pub open spec fn row_window(a: nat, b: nat) -> spec_fn(PixelWrite) -> bool {
    |w: PixelWrite| a <= w.y && w.y < b
}

proof fn lemma_run_writes_filter(x: nat, y: nat, n: nat, color: u16, a: nat, b: nat)
    ensures
        a <= y < b ==> run_writes(x, y, n, color).filter(row_window(a, b)) == run_writes(
            x, y, n, color),
        !(a <= y < b) ==> run_writes(x, y, n, color).filter(row_window(a, b)) == Seq::<
            PixelWrite,
        >::empty(),
    decreases n,
{
    reveal(Seq::filter);
    let s = run_writes(x, y, n, color);
    if n == 0 {
        assert(s =~= Seq::<PixelWrite>::empty());
    } else {
        lemma_run_writes_filter(x, y, (n - 1) as nat, color, a, b);
        assert(s.drop_last() =~= run_writes(x, y, (n - 1) as nat, color));
        assert(s.last().y == y);
        if a <= y < b {
            assert(s.filter(row_window(a, b)) =~= s);
        }
    }
}

/// Painting with the vertical window `[a, b)` gives exactly the writes
/// of a full paint restricted to rows in `[a, b)`; in particular no row
/// outside the window is ever written.
pub proof fn lemma_rle_writes_clip(
    data: Seq<u8>,
    pal: Seq<u16>,
    width: nat,
    height: nat,
    a: nat,
    b: nat,
    x: nat,
    y: nat,
)
    ensures
        rle_writes(data, pal, width, a, if b <= height { b } else { height }, x, y)
            == rle_writes(data, pal, width, 0, height, x, y).filter(row_window(a, b)),
    decreases data.len(),
{
    broadcast use vstd::seq_lib::group_filter_ensures;

    let bh: nat = if b <= height { b } else { height };
    let pred = row_window(a, b);
    let clipped = rle_writes(data, pal, width, a, bh, x, y);
    let full = rle_writes(data, pal, width, 0, height, x, y);
    if data.len() == 0 {
        assert(full.filter(pred) =~= Seq::<PixelWrite>::empty()) by {
            reveal(Seq::filter);
        }
    } else {
        let xn: nat = if x >= width { 0 } else { x };
        let yn: nat = if x >= width { y + 1 } else { y };
        if yn >= height {
            // Both paints have stopped.
            assert(full.filter(pred) =~= Seq::<PixelWrite>::empty()) by {
                reveal(Seq::filter);
            }
        } else if yn >= bh {
            // The clipped paint has stopped; every remaining write of the
            // full paint lies in a row at or past `b` and is filtered out.
            lemma_rle_writes_bounds(data, pal, width, 0, height, x, y);
            assert(forall|i: int| 0 <= i < full.len() ==> !pred(#[trigger] full[i]));
            full.lemma_all_neg_filter_empty(pred);
        } else {
            let packet = data[0];
            let is_run = packet >= 128;
            let idx: nat = if is_run { (packet - 128) as nat } else { packet as nat };
            if idx >= pal.len() {
                assert(full.filter(pred) =~= Seq::<PixelWrite>::empty()) by {
                    reveal(Seq::filter);
                }
            } else if is_run {
                if data.len() < 2 {
                    assert(full.filter(pred) =~= Seq::<PixelWrite>::empty()) by {
                        reveal(Seq::filter);
                    }
                } else {
                    let count = data[1] as nat;
                    let emitted: nat = if count <= width - xn { count } else { (width - xn) as nat };
                    let emit_full = run_writes(xn, yn, emitted, pal[idx as int]);
                    let emit_clip: Seq<PixelWrite> = if yn >= a {
                        emit_full
                    } else {
                        Seq::empty()
                    };
                    let rest_clip = rle_writes(data.skip(2), pal, width, a, bh, xn + count, yn);
                    let rest_full = rle_writes(data.skip(2), pal, width, 0, height, xn + count, yn);
                    lemma_rle_writes_clip(data.skip(2), pal, width, height, a, b, xn + count, yn);
                    lemma_run_writes_filter(xn, yn, emitted, pal[idx as int], a, b);
                    assert(clipped =~= emit_clip + rest_clip);
                    assert(full =~= emit_full + rest_full);
                    Seq::filter_distributes_over_add(emit_full, rest_full, pred);
                    assert(clipped =~= emit_full.filter(pred) + rest_full.filter(pred));
                }
            } else {
                let emit_full: Seq<PixelWrite> = if xn < width {
                    seq![PixelWrite { x: xn, y: yn, color: pal[idx as int] }]
                } else {
                    Seq::empty()
                };
                let emit_clip: Seq<PixelWrite> = if yn >= a { emit_full } else { Seq::empty() };
                let rest_clip = rle_writes(data.skip(1), pal, width, a, bh, xn + 1, yn);
                let rest_full = rle_writes(data.skip(1), pal, width, 0, height, xn + 1, yn);
                lemma_rle_writes_clip(data.skip(1), pal, width, height, a, b, xn + 1, yn);
                assert(emit_clip =~= emit_full.filter(pred)) by {
                    if xn < width {
                        assert(emit_full =~= run_writes(xn, yn, 1, pal[idx as int]));
                        lemma_run_writes_filter(xn, yn, 1, pal[idx as int], a, b);
                    } else {
                        assert(emit_full =~= Seq::<PixelWrite>::empty());
                        reveal(Seq::filter);
                    }
                }
                assert(clipped =~= emit_clip + rest_clip);
                assert(full =~= emit_full + rest_full);
                Seq::filter_distributes_over_add(emit_full, rest_full, pred);
                assert(clipped =~= emit_full.filter(pred) + rest_full.filter(pred));
            }
        }
    }
}

/// Row-major flat index of a write in a frame of the given width.
pub open spec fn write_index(w: PixelWrite, width: nat) -> int {
    (w.y * width + w.x) as int
}

/// One write performed on a surface `width` pixels wide; a write
/// right of the surface's columns or past its end is dropped, as a
/// display clips pixels outside its area.
pub open spec fn apply_one(init: Seq<u16>, w: PixelWrite, width: nat) -> Seq<u16> {
    if w.x < width && write_index(w, width) < init.len() {
        init.update(write_index(w, width), w.color)
    } else {
        init
    }
}

/// The framebuffer contents after performing the writes in order.
pub open spec fn apply_writes(init: Seq<u16>, ws: Seq<PixelWrite>, width: nat) -> Seq<u16>
    decreases ws.len(),
{
    if ws.len() == 0 {
        init
    } else {
        apply_writes(apply_one(init, ws[0], width), ws.skip(1), width)
    }
}

pub proof fn lemma_apply_writes_append(init: Seq<u16>, w1: Seq<PixelWrite>, w2: Seq<PixelWrite>, width: nat)
    ensures
        apply_writes(init, w1 + w2, width) == apply_writes(apply_writes(init, w1, width), w2, width),
    decreases w1.len(),
{
    if w1.len() == 0 {
        assert(w1 + w2 =~= w2);
    } else {
        assert((w1 + w2).skip(1) =~= w1.skip(1) + w2);
        lemma_apply_writes_append(apply_one(init, w1[0], width), w1.skip(1), w2, width);
    }
}

/// The writes of a contiguous row-major pixel stream that starts at
/// flat position `start` in a frame `width` pixels wide.
pub open spec fn contiguous_writes(start: nat, width: nat, pix: Seq<u16>) -> Seq<PixelWrite> {
    Seq::new(
        pix.len(),
        |k: int|
            PixelWrite {
                x: ((start + k) % width as int) as nat,
                y: ((start + k) / width as int) as nat,
                color: pix[k],
            },
    )
}

/// Positions `q * width + r + k` for `r + k < width` sit in row `q`.
pub proof fn lemma_rowmajor_at(q: nat, r: nat, width: nat, k: nat)
    requires
        width > 0,
        r + k < width,
    ensures
        (q * width + r + k) as int % (width as int) == r + k,
        (q * width + r + k) as int / (width as int) == q,
{
    vstd::arithmetic::div_mod::lemma_fundamental_div_mod_converse(
        (q * width + r + k) as int,
        width as int,
        q as int,
        (r + k) as int,
    );
}

/// A contiguous chunk that stays inside one row is a run.
pub proof fn lemma_contiguous_is_run(q: nat, r: nat, width: nat, pix: Seq<u16>, color: u16)
    requires
        width > 0,
        r + pix.len() <= width,
        forall|k: int| 0 <= k < pix.len() ==> pix[k] == color,
    ensures
        contiguous_writes(q * width + r, width, pix) == run_writes(r, q, pix.len(), color),
{
    let lhs = contiguous_writes(q * width + r, width, pix);
    let rhs = run_writes(r, q, pix.len(), color);
    assert forall|k: int| 0 <= k < pix.len() implies lhs[k] == rhs[k] by {
        lemma_rowmajor_at(q, r, width, k as nat);
    }
    assert(lhs =~= rhs);
}

/// Splitting a contiguous stream splits its writes.
pub proof fn lemma_contiguous_split(start: nat, width: nat, pix: Seq<u16>, n: int)
    requires
        0 <= n <= pix.len(),
    ensures
        contiguous_writes(start, width, pix) == contiguous_writes(start, width, pix.take(n))
            + contiguous_writes((start + n) as nat, width, pix.skip(n)),
{
    assert(contiguous_writes(start, width, pix) =~= contiguous_writes(start, width, pix.take(n))
        + contiguous_writes((start + n) as nat, width, pix.skip(n)));
}

/// Applying a contiguous stream overwrites exactly the flat positions
/// it covers.
pub proof fn lemma_apply_contiguous(init: Seq<u16>, f0: nat, width: nat, pix: Seq<u16>)
    requires
        width > 0,
        f0 + pix.len() <= init.len(),
    ensures
        apply_writes(init, contiguous_writes(f0, width, pix), width) == Seq::new(
            init.len(),
            |j: int|
                if f0 <= j < f0 + pix.len() {
                    pix[j - f0]
                } else {
                    init[j]
                },
        ),
    decreases pix.len(),
{
    let ws = contiguous_writes(f0, width, pix);
    let out = Seq::new(
        init.len(),
        |j: int|
            if f0 <= j < f0 + pix.len() {
                pix[j - f0]
            } else {
                init[j]
            },
    );
    if pix.len() == 0 {
        assert(out =~= init);
    } else {
        vstd::arithmetic::div_mod::lemma_fundamental_div_mod(f0 as int, width as int);
        vstd::arithmetic::mul::lemma_mul_is_commutative(width as int, f0 as int / width as int);
        vstd::arithmetic::div_mod::lemma_mod_division_less_than_divisor(f0 as int, width as int);
        assert(write_index(ws[0], width) == f0);
        assert(ws[0].x < width);
        let init2 = init.update(f0 as int, pix[0]);
        assert(apply_one(init, ws[0], width) == init2);
        assert(ws.skip(1) =~= contiguous_writes(f0 + 1, width, pix.skip(1)));
        lemma_apply_contiguous(init2, f0 + 1, width, pix.skip(1));
        assert(apply_writes(init, ws, width) =~= out);
    }
}

/// A zero-width frame paints nothing: every literal falls outside the
/// row and every run is clipped to nothing.
pub proof fn lemma_rle_writes_width0(
    data: Seq<u8>,
    pal: Seq<u16>,
    y_min: nat,
    y_stop: nat,
    x: nat,
    y: nat,
)
    ensures
        rle_writes(data, pal, 0, y_min, y_stop, x, y) == Seq::<PixelWrite>::empty(),
    decreases data.len(),
{
    if data.len() > 0 {
        let yn: nat = y + 1;
        if yn < y_stop {
            let packet = data[0];
            let is_run = packet >= 128;
            let idx: nat = if is_run {
                (packet - 128) as nat
            } else {
                packet as nat
            };
            if idx < pal.len() {
                if is_run {
                    if data.len() >= 2 {
                        let count = data[1] as nat;
                        lemma_rle_writes_width0(data.skip(2), pal, y_min, y_stop, count, yn);
                        assert(run_writes(0, yn, 0, pal[idx as int]) =~= Seq::<
                            PixelWrite,
                        >::empty());
                        assert(rle_writes(data, pal, 0, y_min, y_stop, x, y) =~= Seq::<
                            PixelWrite,
                        >::empty());
                    }
                } else {
                    lemma_rle_writes_width0(data.skip(1), pal, y_min, y_stop, 1, yn);
                    assert(rle_writes(data, pal, 0, y_min, y_stop, x, y) =~= Seq::<
                        PixelWrite,
                    >::empty());
                }
            }
        }
    }
}

/// A packet stream is row-disciplined when every run packet is
/// complete, its count is at least 1, and the run ends at or before the
/// edge of the row it starts in. `x` is the raw scan column at the
/// start of the stream.
pub open spec fn runs_row_bounded(data: Seq<u8>, width: nat, x: nat) -> bool
    decreases data.len(),
{
    if data.len() == 0 {
        true
    } else {
        let xn: nat = if x >= width {
            0
        } else {
            x
        };
        let p = data[0];
        if p >= 128 {
            &&& data.len() >= 2
            &&& 1 <= data[1]
            &&& xn + data[1] <= width
            &&& runs_row_bounded(data.skip(2), width, (xn + data[1]) as nat)
        } else {
            runs_row_bounded(data.skip(1), width, xn + 1)
        }
    }
}

/// Every run packet the encoder emits has a count in `[1, 255]` and
/// stays inside the row it starts in.
pub proof fn lemma_stream_runs_row_bounded(
    pix: Seq<u16>,
    idxs: Seq<u8>,
    width: nat,
    i: nat,
    x: nat,
)
    requires
        width > 0,
        idxs.len() == pix.len(),
        forall|k: int| 0 <= k < idxs.len() ==> idxs[k] < 64,
        i <= pix.len(),
        x <= width,
        i < pix.len() ==> (if x >= width {
            0int
        } else {
            x as int
        }) == i as int % width as int,
    ensures
        runs_row_bounded(spec_stream(pix, idxs, width, i), width, x),
    decreases pix.len() - i,
{
    if i < pix.len() {
        lemma_run_len_bounds(pix, width, i);
        let l = spec_run_len(pix, width, i);
        let xn: nat = if x >= width {
            0
        } else {
            x
        };
        let tail = spec_stream(pix, idxs, width, i + l);
        let head: Seq<u8> = if l == 1 {
            seq![idxs[i as int]]
        } else {
            seq![(128 + idxs[i as int]) as u8, l as u8]
        };
        let data = head + tail;
        assert(spec_stream(pix, idxs, width, i) == data);
        let x2: nat = xn + l;
        if i + l < pix.len() {
            vstd::arithmetic::div_mod::lemma_fundamental_div_mod(i as int, width as int);
            let yn = i as int / width as int;
            if x2 >= width {
                assert(x2 == width);
                assert(i + l == (yn + 1) * width) by {
                    vstd::arithmetic::mul::lemma_mul_is_distributive_add_other_way(
                        width as int, yn, 1int);
                    vstd::arithmetic::mul::lemma_mul_is_commutative(width as int, yn);
                }
                vstd::arithmetic::div_mod::lemma_fundamental_div_mod_converse(
                    (i + l) as int, width as int, yn + 1, 0int);
            } else {
                vstd::arithmetic::mul::lemma_mul_is_commutative(width as int, yn);
                vstd::arithmetic::div_mod::lemma_fundamental_div_mod_converse(
                    (i + l) as int, width as int, yn, x2 as int);
            }
        }
        lemma_stream_runs_row_bounded(pix, idxs, width, i + l, x2);
        if l == 1 {
            assert(data.skip(1) =~= tail);
        } else {
            assert(data.skip(2) =~= tail);
            assert(data[1] == l as u8);
        }
    }
}

/// A frame decoded from scratch: parse, then paint every row of an
/// all-zero surface.
pub open spec fn spec_decode(b: Seq<u8>) -> Option<(u32, u32, Seq<u16>)> {
    match spec_parse(b) {
        None => None,
        Some(img) => Some(
            (
                img.width,
                img.height,
                apply_writes(
                    Seq::new((img.width * img.height) as nat, |k: int| 0u16),
                    rle_writes(
                        img.data,
                        img.palette,
                        img.width as nat,
                        0,
                        img.height as nat,
                        0,
                        0,
                    ),
                    img.width as nat,
                ),
            ),
        ),
    }
}

/// How many pixels from `i` on are `color`, up to `bound`.
pub open spec fn spec_run_ext(pix: Seq<u16>, color: u16, i: nat, bound: nat) -> nat
    decreases bound,
{
    if bound == 0 || i >= pix.len() || pix[i as int] != color {
        0
    } else {
        1 + spec_run_ext(pix, color, i + 1, (bound - 1) as nat)
    }
}

/// Length of the run the encoder emits for flat index `i`: pixels equal
/// to `pix[i]` are grouped greedily, stopping at the end of the row and
/// at 255.
pub open spec fn spec_run_len(pix: Seq<u16>, width: nat, i: nat) -> nat
    recommends
        width > 0,
        i < pix.len(),
{
    let room = width - i as int % width as int;
    let cap: int = if room <= 255 {
        room
    } else {
        255
    };
    (1 + spec_run_ext(pix, pix[i as int], i + 1, (cap - 1) as nat)) as nat
}

pub proof fn lemma_run_ext_bounds(pix: Seq<u16>, color: u16, i: nat, bound: nat)
    ensures
        spec_run_ext(pix, color, i, bound) <= bound,
        i <= pix.len() ==> i + spec_run_ext(pix, color, i, bound) <= pix.len(),
        forall|k: int|
            i <= k < i + spec_run_ext(pix, color, i, bound) ==> pix[k] == color,
    decreases bound,
{
    if !(bound == 0 || i >= pix.len() || pix[i as int] != color) {
        lemma_run_ext_bounds(pix, color, i + 1, (bound - 1) as nat);
    }
}

/// Basic facts about an encoder run: at least one pixel, at most 255,
/// never past the end of the row or of the frame, and constant color.
pub proof fn lemma_run_len_bounds(pix: Seq<u16>, width: nat, i: nat)
    requires
        width > 0,
        i < pix.len(),
    ensures
        1 <= spec_run_len(pix, width, i) <= 255,
        i as int % width as int + spec_run_len(pix, width, i) <= width,
        i + spec_run_len(pix, width, i) <= pix.len(),
        forall|k: int|
            i <= k < i + spec_run_len(pix, width, i) ==> pix[k] == pix[i as int],
{
    let room = width - i as int % width as int;
    let cap: int = if room <= 255 {
        room
    } else {
        255
    };
    vstd::arithmetic::div_mod::lemma_mod_division_less_than_divisor(i as int, width as int);
    lemma_run_ext_bounds(pix, pix[i as int], i + 1, (cap - 1) as nat);
}

/// The packet stream the encoder produces for the pixels from flat
/// index `i` on, given the palette index of every pixel.
pub open spec fn spec_stream(pix: Seq<u16>, idxs: Seq<u8>, width: nat, i: nat) -> Seq<u8>
    recommends
        width > 0,
    decreases pix.len() - i
{
    if i >= pix.len() || width == 0 {
        Seq::empty()
    } else {
        let l0 = spec_run_len(pix, width, i);
        // The clamp only serves the termination measure; `l0` is already
        // in this range whenever `i` is in the frame (lemma_run_len_bounds).
        let l: nat = if 1 <= l0 && i + l0 <= pix.len() {
            l0
        } else {
            (pix.len() - i) as nat
        };
        let head: Seq<u8> = if l == 1 {
            seq![idxs[i as int]]
        } else {
            seq![(128 + idxs[i as int]) as u8, l as u8]
        };
        head + spec_stream(pix, idxs, width, i + l)
    }
}

/// Every pixel quantized through the palette.
pub open spec fn quantized(pix: Seq<u16>, idxs: Seq<u8>, pal: Seq<u16>) -> Seq<u16> {
    Seq::new(pix.len(), |k: int| pal[idxs[k] as int])
}

/// Decoding the stream the encoder emits for the pixels from flat
/// position `i` on paints, row-major and without any clipping or early
/// stop, exactly the palette-quantized pixels from `i` on.
///
/// `(x, y)` is any raw scan state whose normalization is the row-major
/// position of `i`; the encoder's runs never cross a row, so every run
/// is emitted in full.
pub proof fn lemma_stream_decodes(
    pix: Seq<u16>,
    idxs: Seq<u8>,
    pal: Seq<u16>,
    width: nat,
    height: nat,
    i: nat,
    x: nat,
    y: nat,
)
    requires
        width > 0,
        pix.len() == width * height,
        idxs.len() == pix.len(),
        pal.len() <= 64,
        forall|k: int| 0 <= k < idxs.len() ==> (idxs[k] as int) < pal.len(),
        forall|j: int, k: int|
            0 <= j < pix.len() && 0 <= k < pix.len() && pix[j] == pix[k] ==> idxs[j] == idxs[k],
        i <= pix.len(),
        x <= width,
        i < pix.len() ==> (if x >= width {
            0int
        } else {
            x as int
        }) == i as int % width as int,
        i < pix.len() ==> (if x >= width {
            y + 1int
        } else {
            y as int
        }) == i as int / width as int,
    ensures
        rle_writes(spec_stream(pix, idxs, width, i), pal, width, 0, height, x, y)
            == contiguous_writes(i, width, quantized(pix, idxs, pal).skip(i as int)),
    decreases pix.len() - i,
{
    let q = quantized(pix, idxs, pal);
    if i >= pix.len() {
        assert(q.skip(i as int) =~= Seq::<u16>::empty());
        assert(rle_writes(spec_stream(pix, idxs, width, i), pal, width, 0, height, x, y)
            =~= contiguous_writes(i, width, q.skip(i as int)));
    } else {
        lemma_run_len_bounds(pix, width, i);
        let l = spec_run_len(pix, width, i);
        let xn: nat = if x >= width {
            0
        } else {
            x
        };
        let yn: nat = if x >= width {
            (y + 1) as nat
        } else {
            y
        };
        assert(xn == i as int % width as int);
        assert(yn == i as int / width as int);
        vstd::arithmetic::div_mod::lemma_fundamental_div_mod(i as int, width as int);
        vstd::arithmetic::mul::lemma_mul_is_commutative(width as int, yn as int);
        assert(i == yn * width + xn);
        assert(i < width * height);
        vstd::arithmetic::div_mod::lemma_multiply_divide_lt(
            i as int, width as int, height as int);
        assert(yn < height);
        let tail = spec_stream(pix, idxs, width, i + l);
        let head: Seq<u8> = if l == 1 {
            seq![idxs[i as int]]
        } else {
            seq![(128 + idxs[i as int]) as u8, l as u8]
        };
        let data = head + tail;
        assert(spec_stream(pix, idxs, width, i) == data);
        let color = pal[idxs[i as int] as int];
        let chunk = q.skip(i as int).take(l as int);
        assert forall|k: int| 0 <= k < chunk.len() implies chunk[k] == color by {
            assert(pix[i + k] == pix[i as int]);
            assert(idxs[i + k] == idxs[i as int]);
        }
        lemma_contiguous_is_run(yn, xn, width, chunk, color);
        lemma_contiguous_split(i, width, q.skip(i as int), l as int);
        assert(q.skip(i as int).skip(l as int) =~= q.skip(i as int + l as int));
        let x2: nat = xn + l;
        // The next packet starts at flat position i + l.
        if i + l < pix.len() {
            if x2 >= width {
                assert(x2 == width);
                assert(i + l == (yn + 1) * width) by {
                    vstd::arithmetic::mul::lemma_mul_is_distributive_add_other_way(
                        width as int, yn as int, 1int);
                }
                vstd::arithmetic::div_mod::lemma_fundamental_div_mod_converse(
                    (i + l) as int, width as int, yn as int + 1, 0int);
            } else {
                vstd::arithmetic::div_mod::lemma_fundamental_div_mod_converse(
                    (i + l) as int, width as int, yn as int, x2 as int);
            }
        }
        lemma_stream_decodes(pix, idxs, pal, width, height, i + l, x2, yn);
        if l == 1 {
            assert(data[0] == idxs[i as int]);
            assert(data[0] < 128);
            assert(data.skip(1) =~= tail);
            assert(run_writes(xn, yn, 1, color)
                =~= seq![PixelWrite { x: xn, y: yn, color: color }]);
            assert(rle_writes(data, pal, width, 0, height, x, y)
                == seq![PixelWrite { x: xn, y: yn, color: color }]
                    + rle_writes(tail, pal, width, 0, height, xn + 1, yn));
            assert(rle_writes(data, pal, width, 0, height, x, y)
                =~= contiguous_writes(i, width, q.skip(i as int)));
        } else {
            assert(data[0] == (128 + idxs[i as int]) as u8);
            assert(data[0] >= 128);
            assert((data[0] - 128) as nat == idxs[i as int] as nat);
            assert(data[1] == l as u8);
            assert(data[1] as nat == l);
            assert(data.skip(2) =~= tail);
            assert(l <= width - xn);
            assert(rle_writes(data, pal, width, 0, height, x, y)
                == run_writes(xn, yn, l, color)
                    + rle_writes(tail, pal, width, 0, height, xn + l, yn));
            assert(rle_writes(data, pal, width, 0, height, x, y)
                =~= contiguous_writes(i, width, q.skip(i as int)));
        }
    }
}

} // verus!
