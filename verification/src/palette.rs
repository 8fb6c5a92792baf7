//! The palette builder: a bounded set of representative colors for a
//! frame, and a palette index for every pixel.
//!
//! Strategy: frequency-greedy. Count each distinct color, order the
//! colors by rising frequency (ties by first appearance), and keep the
//! first `max_colors` of that order as the palette. A color that did
//! not make the palette maps to the palette entry nearest to it by
//! squared distance over the decoded 8-bit channels, the first such
//! entry on a tie.

use vstd::prelude::*;
use crate::color::{spec_blue5, spec_chan5_to_8, spec_chan6_to_8, spec_green6, spec_red5};

verus! {

/// How many entries of `s` are the color `c`.
pub open spec fn count_in(s: Seq<u16>, c: u16) -> nat
    decreases s.len(),
{
    if s.len() == 0 {
        0
    } else {
        count_in(s.drop_last(), c) + (if s.last() == c {
            1nat
        } else {
            0nat
        })
    }
}

/// The number of distinct colors in `s`.
pub open spec fn spec_distinct(s: Seq<u16>) -> nat {
    s.to_set().len()
}

/// Squared distance between two packed colors over their decoded 8-bit
/// channels.
pub open spec fn spec_dist(a: u16, b: u16) -> int {
    let dr = spec_chan5_to_8(spec_red5(a)) - spec_chan5_to_8(spec_red5(b));
    let dg = spec_chan6_to_8(spec_green6(a)) - spec_chan6_to_8(spec_green6(b));
    let db = spec_chan5_to_8(spec_blue5(a)) - spec_chan5_to_8(spec_blue5(b));
    dr * dr + dg * dg + db * db
}

/// The first palette index at minimal squared distance from `c`.
pub open spec fn spec_nearest(pal: Seq<u16>, c: u16) -> nat
    recommends
        pal.len() >= 1,
    decreases pal.len(),
{
    if pal.len() <= 1 {
        0
    } else {
        let p = spec_nearest(pal.drop_last(), c);
        if spec_dist(pal.last(), c) < spec_dist(pal[p as int], c) {
            (pal.len() - 1) as nat
        } else {
            p
        }
    }
}

/// The palette index every pixel of color `c` maps to: the color's own
/// entry if it is in the palette, else the nearest entry.
pub open spec fn spec_index_for(pal: Seq<u16>, c: u16) -> nat {
    match pal.index_of_first(c) {
        Some(i) => i as nat,
        None => spec_nearest(pal, c),
    }
}

pub proof fn lemma_count_in_zero(s: Seq<u16>, c: u16)
    ensures
        count_in(s, c) > 0 ==> s.contains(c),
        !s.contains(c) ==> count_in(s, c) == 0,
    decreases s.len(),
{
    if s.len() > 0 {
        lemma_count_in_zero(s.drop_last(), c);
        if count_in(s, c) > 0 {
            if s.last() == c {
                assert(s[s.len() - 1] == c);
            } else {
                let j = choose|j: int|
                    0 <= j < s.drop_last().len() && s.drop_last()[j] == c;
                assert(s[j] == c);
            }
        }
        if !s.contains(c) {
            assert(s[s.len() - 1] != c);
            assert(forall|j: int| 0 <= j < s.drop_last().len() ==> s.drop_last()[j] != c);
        }
    }
}

/// Extending a prefix by one pixel raises exactly that pixel's count.
proof fn lemma_count_take_step(s: Seq<u16>, k: int)
    requires
        0 <= k < s.len(),
    ensures
        forall|c: u16|
            #[trigger] count_in(s.take(k + 1), c) == count_in(s.take(k), c) + (if s[k] == c {
                1int
            } else {
                0int
            }),
{
    assert(s.take(k + 1).drop_last() =~= s.take(k));
    assert(s.take(k + 1).last() == s[k]);
}

/// The nearest index is a real index, no entry is strictly closer, and
/// earlier entries at the same distance would have won.
pub proof fn lemma_nearest_ensures(pal: Seq<u16>, c: u16)
    requires
        pal.len() >= 1,
    ensures
        spec_nearest(pal, c) < pal.len(),
        forall|j: int|
            0 <= j < pal.len() ==> spec_dist(pal[spec_nearest(pal, c) as int], c) <= spec_dist(
                #[trigger] pal[j],
                c,
            ),
        forall|j: int|
            0 <= j < spec_nearest(pal, c) ==> spec_dist(#[trigger] pal[j], c) > spec_dist(
                pal[spec_nearest(pal, c) as int],
                c,
            ),
    decreases pal.len(),
{
    if pal.len() > 1 {
        lemma_nearest_ensures(pal.drop_last(), c);
        assert(forall|j: int| 0 <= j < pal.len() - 1 ==> pal.drop_last()[j] == pal[j]);
    }
}

/// Squared distance between two packed colors, over decoded channels.
fn dist565(a: u16, b: u16) -> (d: i32)
    ensures
        d == spec_dist(a, b),
{
    let (ra, ga, ba) = crate::color::rgb565_to_rgb888(a);
    let (rb, gb, bb) = crate::color::rgb565_to_rgb888(b);
    let dr = ra as i32 - rb as i32;
    let dg = ga as i32 - gb as i32;
    let db = ba as i32 - bb as i32;
    proof {
        assert(0 <= dr * dr <= 65025 && 0 <= dg * dg <= 65025 && 0 <= db * db
            <= 65025) by (nonlinear_arith)
            requires
                -255 <= dr <= 255,
                -255 <= dg <= 255,
                -255 <= db <= 255,
        ;
    }
    dr * dr + dg * dg + db * db
}

/// First index of `c` in `pal`, if any.
fn find_color(pal: &Vec<u16>, c: u16) -> (r: Option<usize>)
    ensures
        r is Some <==> pal@.contains(c),
        r matches Some(i) ==> {
            &&& i < pal@.len()
            &&& pal@[i as int] == c
            &&& forall|j: int| 0 <= j < i ==> pal@[j] != c
            &&& pal@.index_of_first(c) == Some(i as int)
        },
        r is None ==> pal@.index_of_first(c) is None,
{
    let mut i: usize = 0;
    while i < pal.len()
        invariant
            i <= pal@.len(),
            forall|j: int| 0 <= j < i ==> pal@[j] != c,
        decreases pal@.len() - i,
    {
        if pal[i] == c {
            proof {
                pal@.index_of_first_ensures(c);
                if pal@.index_of_first(c) is None {
                    assert(false);
                } else {
                    let k = pal@.index_of_first(c)->Some_0;
                    assert(pal@[k] == c);
                    assert(!(k < i) && !(k > i));
                }
            }
            return Some(i);
        }
        i = i + 1;
    }
    proof {
        pal@.index_of_first_ensures(c);
        if pal@.contains(c) {
            let j = choose|j: int| 0 <= j < pal@.len() && pal@[j] == c;
            assert(false);
        }
    }
    None
}

/// First palette index at minimal squared distance from `c`.
fn nearest_index(pal: &Vec<u16>, c: u16) -> (r: usize)
    requires
        pal@.len() >= 1,
    ensures
        r < pal@.len(),
        r as nat == spec_nearest(pal@, c),
{
    let mut best: usize = 0;
    let mut best_d: i32 = dist565(pal[0], c);
    let mut i: usize = 1;
    while i < pal.len()
        invariant
            1 <= i <= pal@.len(),
            best < i,
            best_d == spec_dist(pal@[best as int], c),
            best as nat == spec_nearest(pal@.take(i as int), c),
        decreases pal@.len() - i,
    {
        let d = dist565(pal[i], c);
        proof {
            assert(pal@.take(i + 1).drop_last() =~= pal@.take(i as int));
            assert(pal@.take(i + 1).last() == pal@[i as int]);
        }
        if d < best_d {
            best = i;
            best_d = d;
        }
        i = i + 1;
    }
    proof {
        assert(pal@.take(pal@.len() as int) =~= pal@);
    }
    best
}

/// Swapping two entries leaves membership unchanged.
proof fn lemma_swap_preserves_contains(s: Seq<u16>, i: int, j: int)
    requires
        0 <= i < s.len(),
        0 <= j < s.len(),
    ensures
        forall|c: u16|
            #[trigger] s.update(i, s[j]).update(j, s[i]).contains(c) <==> s.contains(c),
{
    let t = s.update(i, s[j]).update(j, s[i]);
    assert forall|c: u16| #[trigger] t.contains(c) <==> s.contains(c) by {
        if t.contains(c) {
            let k = choose|k: int| 0 <= k < t.len() && t[k] == c;
            if k == j {
                assert(s[i] == c);
            } else if k == i {
                assert(s[j] == c);
            } else {
                assert(s[k] == c);
            }
        }
        if s.contains(c) {
            let k = choose|k: int| 0 <= k < s.len() && s[k] == c;
            if k == i {
                assert(t[j] == c);
            } else if k == j && i != j {
                assert(t[i] == c);
            } else if k != i && k != j {
                assert(t[k] == c);
            }
        }
    }
}

/// The selection-sort order: rising count, ties by first appearance.
spec fn key_le(ca: u64, fa: usize, cb: u64, fb: usize) -> bool {
    ca < cb || (ca == cb && fa <= fb)
}

/// Sort the color/count/first-appearance entries by rising count,
/// ties by first appearance. All the elementwise facts about the
/// entries survive, since sorting only rearranges them.
fn sort_entries(
    colors: &mut Vec<u16>,
    counts: &mut Vec<u64>,
    firsts: &mut Vec<usize>,
    Ghost(pixels): Ghost<Seq<u16>>,
)
    requires
        old(colors)@.len() == old(counts)@.len(),
        old(colors)@.len() == old(firsts)@.len(),
        forall|a: int, b: int|
            0 <= a < b < old(colors)@.len() ==> old(colors)@[a] != old(colors)@[b],
        forall|i: int|
            0 <= i < old(colors)@.len() ==> #[trigger] old(counts)@[i] == count_in(
                pixels,
                old(colors)@[i],
            ) && old(counts)@[i] >= 1,
        forall|i: int|
            0 <= i < old(colors)@.len() ==> pixels.index_of_first(#[trigger] old(colors)@[i])
                == Some(old(firsts)@[i] as int),
        forall|k: int| 0 <= k < pixels.len() ==> old(colors)@.contains(#[trigger] pixels[k]),
    ensures
        final(colors)@.len() == old(colors)@.len(),
        final(counts)@.len() == old(colors)@.len(),
        final(firsts)@.len() == old(colors)@.len(),
        forall|a: int, b: int|
            0 <= a < b < final(colors)@.len() ==> final(colors)@[a] != final(colors)@[b],
        forall|i: int|
            0 <= i < final(colors)@.len() ==> #[trigger] final(counts)@[i] == count_in(
                pixels,
                final(colors)@[i],
            ) && final(counts)@[i] >= 1,
        forall|i: int|
            0 <= i < final(colors)@.len() ==> pixels.index_of_first(#[trigger] final(colors)@[i])
                == Some(final(firsts)@[i] as int),
        forall|k: int| 0 <= k < pixels.len() ==> final(colors)@.contains(#[trigger] pixels[k]),
        forall|a: int, b: int|
            0 <= a < b < final(counts)@.len() ==> final(counts)@[a] <= final(counts)@[b],
        forall|a: int, b: int|
            0 <= a < b < final(counts)@.len() && final(counts)@[a] == final(counts)@[b]
                ==> final(firsts)@[a] < final(firsts)@[b],
{
    let n = colors.len();
    let mut p: usize = 0;
    while p < n
        invariant
            n == colors@.len(),
            colors@.len() == counts@.len(),
            colors@.len() == firsts@.len(),
            p <= n,
            forall|a: int, b: int| 0 <= a < b < n ==> colors@[a] != colors@[b],
            forall|i: int|
                0 <= i < n ==> #[trigger] counts@[i] == count_in(pixels, colors@[i]) && counts@[i]
                    >= 1,
            forall|i: int|
                0 <= i < n ==> pixels.index_of_first(#[trigger] colors@[i]) == Some(
                    firsts@[i] as int,
                ),
            forall|k: int| 0 <= k < pixels.len() ==> colors@.contains(#[trigger] pixels[k]),
            forall|a: int, b: int|
                0 <= a < b < p ==> key_le(counts@[a], firsts@[a], counts@[b], firsts@[b]),
            forall|a: int, b: int|
                0 <= a < p && p <= b < n ==> key_le(counts@[a], firsts@[a], counts@[b], firsts@[b]),
        decreases n - p,
    {
        let mut m: usize = p;
        let mut t: usize = p + 1;
        while t < n
            invariant
                n == colors@.len(),
                colors@.len() == counts@.len(),
                colors@.len() == firsts@.len(),
                p <= m < n,
                p < t <= n,
                forall|u: int|
                    p <= u < t ==> key_le(
                        counts@[m as int],
                        firsts@[m as int],
                        #[trigger] counts@[u],
                        firsts@[u],
                    ),
            decreases n - t,
        {
            if counts[t] < counts[m] || (counts[t] == counts[m] && firsts[t] < firsts[m]) {
                m = t;
            }
            t = t + 1;
        }
        let ghost colors0 = colors@;
        let ghost counts0 = counts@;
        let ghost firsts0 = firsts@;
        let cm = colors[m];
        let cp = colors[p];
        colors.set(p, cm);
        colors.set(m, cp);
        let km = counts[m];
        let kp = counts[p];
        counts.set(p, km);
        counts.set(m, kp);
        let fm = firsts[m];
        let fp = firsts[p];
        firsts.set(p, fm);
        firsts.set(m, fp);
        proof {
            lemma_swap_preserves_contains(colors0, p as int, m as int);
            assert(colors@ =~= colors0.update(p as int, colors0[m as int]).update(
                m as int,
                colors0[p as int],
            ));
        }
        p = p + 1;
    }
    proof {
        assert forall|a: int, b: int| 0 <= a < b < counts@.len() implies counts@[a]
            <= counts@[b] by {
            assert(key_le(counts@[a], firsts@[a], counts@[b], firsts@[b]));
        }
        // Distinct colors have distinct first appearances, so ties in
        // the count order are strictly ordered by first appearance.
        assert forall|a: int, b: int|
            0 <= a < b < counts@.len() && counts@[a] == counts@[b] implies firsts@[a]
            < firsts@[b] by {
            assert(key_le(counts@[a], firsts@[a], counts@[b], firsts@[b]));
            pixels.index_of_first_ensures(colors@[a]);
            pixels.index_of_first_ensures(colors@[b]);
            if firsts@[a] == firsts@[b] {
                assert(pixels[firsts@[a] as int] == colors@[a]);
                assert(pixels[firsts@[b] as int] == colors@[b]);
            }
        }
    }
}

/// Build a palette of at most `max_colors` representative colors for
/// the frame, and map every pixel to a palette index.
///
/// The palette holds the rarest distinct colors first (ties by first
/// appearance); when the frame has at most `max_colors` distinct
/// colors it holds all of them and every pixel maps to its own color.
/// A pixel whose color is in the palette maps to that entry; any other
/// maps to the first entry at minimal squared channel distance.
pub fn build_palette(pixels: &Vec<u16>, max_colors: usize) -> (r: (Vec<u16>, Vec<u8>))
    requires
        1 <= max_colors <= 64,
    ensures
        r.0@.len() <= max_colors,
        r.1@.len() == pixels@.len(),
        pixels@.len() == 0 ==> r.0@.len() == 0,
        pixels@.len() > 0 ==> r.0@.len() >= 1,
        r.0@.len() == (if spec_distinct(pixels@) <= max_colors {
            spec_distinct(pixels@)
        } else {
            max_colors as nat
        }),
        forall|a: int, b: int| 0 <= a < b < r.0@.len() ==> r.0@[a] != r.0@[b],
        forall|i: int| 0 <= i < r.0@.len() ==> pixels@.contains(#[trigger] r.0@[i]),
        forall|a: int, b: int|
            0 <= a < b < r.0@.len() ==> count_in(pixels@, r.0@[a]) <= count_in(pixels@, r.0@[b]),
        forall|a: int, b: int|
            0 <= a < b < r.0@.len() && count_in(pixels@, r.0@[a]) == count_in(pixels@, r.0@[b])
                ==> pixels@.index_of_first(r.0@[a])->Some_0 < pixels@.index_of_first(
                r.0@[b],
            )->Some_0,
        forall|c: u16, i: int|
            #![trigger count_in(pixels@, r.0@[i]), count_in(pixels@, c)]
            pixels@.contains(c) && !r.0@.contains(c) && 0 <= i < r.0@.len() ==> count_in(
                pixels@,
                r.0@[i],
            ) < count_in(pixels@, c) || (count_in(pixels@, r.0@[i]) == count_in(pixels@, c)
                && pixels@.index_of_first(r.0@[i])->Some_0 < pixels@.index_of_first(c)->Some_0),
        forall|k: int|
            0 <= k < pixels@.len() ==> (#[trigger] r.1@[k] as int) < r.0@.len(),
        forall|k: int|
            0 <= k < pixels@.len() ==> (#[trigger] r.1@[k] as nat) == spec_index_for(
                r.0@,
                pixels@[k],
            ),
        spec_distinct(pixels@) <= max_colors ==> forall|k: int|
            0 <= k < pixels@.len() ==> r.0@[#[trigger] r.1@[k] as int] == pixels@[k],
{
    let np: usize = pixels.len();
    let mut colors: Vec<u16> = Vec::new();
    let mut counts: Vec<u64> = Vec::new();
    let mut firsts: Vec<usize> = Vec::new();
    let mut k: usize = 0;
    while k < pixels.len()
        invariant
            k <= pixels@.len(),
            pixels@.len() == np,
            colors@.len() == counts@.len(),
            colors@.len() == firsts@.len(),
            colors@.len() <= k,
            forall|a: int, b: int| 0 <= a < b < colors@.len() ==> colors@[a] != colors@[b],
            forall|i: int|
                0 <= i < colors@.len() ==> #[trigger] counts@[i] == count_in(
                    pixels@.take(k as int),
                    colors@[i],
                ) && 1 <= counts@[i] <= k,
            forall|i: int|
                0 <= i < colors@.len() ==> pixels@.index_of_first(#[trigger] colors@[i]) == Some(
                    firsts@[i] as int,
                ),
            forall|j: int| 0 <= j < k ==> colors@.contains(#[trigger] pixels@[j]),
        decreases pixels@.len() - k,
    {
        let c = pixels[k];
        proof {
            lemma_count_take_step(pixels@, k as int);
        }
        match find_color(&colors, c) {
            Some(i) => {
                let n = counts[i];
                counts.set(i, n + 1);
                proof {
                    assert forall|j: int|
                        0 <= j < colors@.len() implies #[trigger] counts@[j] == count_in(
                        pixels@.take(k + 1),
                        colors@[j],
                    ) by {
                        if j != i {
                            assert(colors@[j] != c);
                        }
                    }
                }
            },
            None => {
                proof {
                    assert forall|j: int|
                        0 <= j < colors@.len() implies count_in(
                        pixels@.take(k as int),
                        colors@[j],
                    ) == count_in(pixels@.take(k + 1), colors@[j]) by {
                        assert(pixels@[k as int] != colors@[j]);
                    }
                    assert(!pixels@.take(k as int).contains(c)) by {
                        if pixels@.take(k as int).contains(c) {
                            let j = choose|j: int|
                                0 <= j < k && pixels@.take(k as int)[j] == c;
                            assert(colors@.contains(pixels@[j]));
                        }
                    }
                    lemma_count_in_zero(pixels@.take(k as int), c);
                    // This is the color's first appearance.
                    assert(forall|j: int|
                        0 <= j < k ==> #[trigger] pixels@[j] != c) by {
                        assert(forall|j: int|
                            0 <= j < k ==> pixels@.take(k as int)[j] == pixels@[j]);
                    }
                    pixels@.index_of_first_ensures(c);
                    match pixels@.index_of_first(c) {
                        Some(idx) => {
                            assert(!(idx < k) && !(idx > k)) by {
                                if idx > k {
                                    assert(pixels@[k as int] != c);
                                }
                            }
                        },
                        None => {
                            assert(pixels@.contains(c)) by {
                                assert(pixels@[k as int] == c);
                            }
                        },
                    }
                    assert(pixels@.index_of_first(c) == Some(k as int));
                }
                let ghost colors0 = colors@;
                colors.push(c);
                counts.push(1);
                firsts.push(k);
                proof {
                    assert forall|j: int| 0 <= j < k implies colors@.contains(
                        #[trigger] pixels@[j],
                    ) by {
                        let u = choose|u: int|
                            0 <= u < colors0.len() && colors0[u] == pixels@[j];
                        assert(colors@[u] == pixels@[j]);
                    }
                    assert(colors@[colors@.len() - 1] == c);
                }
            },
        }
        k = k + 1;
    }
    proof {
        assert(pixels@.take(pixels@.len() as int) =~= pixels@);
    }
    sort_entries(&mut colors, &mut counts, &mut firsts, Ghost(pixels@));
    let t: usize = if max_colors <= colors.len() {
        max_colors
    } else {
        colors.len()
    };
    let mut pal: Vec<u16> = Vec::new();
    let mut p: usize = 0;
    while p < t
        invariant
            p <= t,
            t <= colors@.len(),
            pal@ == colors@.take(p as int),
        decreases t - p,
    {
        proof {
            assert(pal@.push(colors@[p as int]) =~= colors@.take(p + 1));
        }
        pal.push(colors[p]);
        p = p + 1;
    }
    proof {
        // Palette entries keep the sort facts of the full entry list.
        assert forall|i: int| 0 <= i < pal@.len() implies pixels@.contains(
            #[trigger] pal@[i],
        ) by {
            assert(pal@[i] == colors@[i]);
            assert(counts@[i] == count_in(pixels@, colors@[i]) && counts@[i] >= 1);
            lemma_count_in_zero(pixels@, colors@[i]);
        }
        // Distinct-color count of the frame.
        assert forall|c: u16| colors@.contains(c) implies pixels@.contains(c) by {
            let i = choose|i: int| 0 <= i < colors@.len() && colors@[i] == c;
            assert(counts@[i] == count_in(pixels@, colors@[i]) && counts@[i] >= 1);
            lemma_count_in_zero(pixels@, c);
        }
        assert forall|a: int, b: int| 0 <= a < b < pal@.len() implies count_in(
            pixels@,
            pal@[a],
        ) <= count_in(pixels@, pal@[b]) by {
            assert(counts@[a] == count_in(pixels@, colors@[a]));
            assert(counts@[b] == count_in(pixels@, colors@[b]));
            assert(counts@[a] <= counts@[b]);
            assert(pal@[a] == colors@[a] && pal@[b] == colors@[b]);
        }
        assert forall|a: int, b: int|
            0 <= a < b < pal@.len() && count_in(pixels@, pal@[a]) == count_in(
                pixels@,
                pal@[b],
            ) implies pixels@.index_of_first(pal@[a])->Some_0 < pixels@.index_of_first(
            pal@[b],
        )->Some_0 by {
            assert(pal@[a] == colors@[a] && pal@[b] == colors@[b]);
            assert(counts@[a] == count_in(pixels@, colors@[a]));
            assert(counts@[b] == count_in(pixels@, colors@[b]));
            assert(pixels@.index_of_first(colors@[a]) == Some(firsts@[a] as int));
            assert(pixels@.index_of_first(colors@[b]) == Some(firsts@[b] as int));
            assert(firsts@[a] < firsts@[b]);
        }
        assert(colors@.to_set() =~= pixels@.to_set());
        colors@.unique_seq_to_set();
        assert(spec_distinct(pixels@) == colors@.len());
        // Every color left out of the palette comes after every kept
        // entry in the rarest-first order.
        assert forall|c: u16, i: int|
            #![trigger count_in(pixels@, pal@[i]), count_in(pixels@, c)]
            pixels@.contains(c) && !pal@.contains(c) && 0 <= i < pal@.len() implies count_in(
            pixels@,
            pal@[i],
        ) < count_in(pixels@, c) || (count_in(pixels@, pal@[i]) == count_in(pixels@, c)
            && pixels@.index_of_first(pal@[i])->Some_0 < pixels@.index_of_first(
            c,
        )->Some_0) by {
            let occurrence = choose|j: int| 0 <= j < pixels@.len() && pixels@[j] == c;
            assert(colors@.contains(c));
            let j = choose|j: int| 0 <= j < colors@.len() && colors@[j] == c;
            assert(!(j < t)) by {
                if j < t {
                    assert(pal@[j] == c);
                }
            }
            assert(counts@[i] <= counts@[j]);
            assert(counts@[i] == count_in(pixels@, colors@[i]));
            assert(counts@[j] == count_in(pixels@, colors@[j]));
            assert(pixels@.index_of_first(colors@[i]) == Some(firsts@[i] as int));
            assert(pixels@.index_of_first(colors@[j]) == Some(firsts@[j] as int));
            assert(pal@[i] == colors@[i]);
            if counts@[i] == counts@[j] {
                assert(firsts@[i] < firsts@[j]);
            }
        }
    }
    let mut idxs: Vec<u8> = Vec::new();
    let mut q: usize = 0;
    while q < pixels.len()
        invariant
            q <= pixels@.len(),
            pixels@.len() == np,
            1 <= max_colors <= 64,
            q > 0 ==> pal@.len() >= 1,
            pal@.len() <= 64,
            pal@ == colors@.take(t as int),
            t <= colors@.len(),
            t == (if max_colors <= colors@.len() {
                max_colors as int
            } else {
                colors@.len() as int
            }),
            forall|j: int| 0 <= j < pixels@.len() ==> colors@.contains(#[trigger] pixels@[j]),
            idxs@.len() == q,
            forall|j: int| 0 <= j < q ==> (#[trigger] idxs@[j] as int) < pal@.len(),
            forall|j: int|
                0 <= j < q ==> (#[trigger] idxs@[j] as nat) == spec_index_for(pal@, pixels@[j]),
        decreases pixels@.len() - q,
    {
        let c = pixels[q];
        let idx: usize = match find_color(&pal, c) {
            Some(i) => i,
            None => {
                proof {
                    assert(colors@.contains(c));
                    assert(colors@.len() >= 1);
                    assert(t >= 1);
                    assert(pal@[0] == colors@[0]);
                }
                nearest_index(&pal, c)
            },
        };
        idxs.push(idx as u8);
        q = q + 1;
    }
    proof {
        if spec_distinct(pixels@) <= max_colors {
            // Every distinct color fits: the palette is the whole list,
            // so each pixel maps to its own color.
            assert(t == colors@.len());
            assert(pal@ =~= colors@);
            assert forall|j: int| 0 <= j < pixels@.len() implies pal@[(
            #[trigger] idxs@[j]) as int] == pixels@[j] by {
                pal@.index_of_first_ensures(pixels@[j]);
            }
        }
    }
    (pal, idxs)
}

} // verus!
