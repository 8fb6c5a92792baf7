use fan_control::color::rgb888_to_rgb565;
use fan_control::palette::build_palette;

#[test]
fn empty_pixels_give_empty_palette() {
    let (pal, idxs) = build_palette(&vec![], 64);
    assert!(pal.is_empty());
    assert!(idxs.is_empty());
}

#[test]
fn rarest_colors_come_first() {
    let a = rgb888_to_rgb565(255, 0, 0);
    let b = rgb888_to_rgb565(0, 255, 0);
    let c = rgb888_to_rgb565(0, 0, 255);
    // A five times, B twice, C once.
    let pixels = vec![a, a, b, c, a, b, a, a];
    let (pal, idxs) = build_palette(&pixels, 64);
    assert_eq!(pal, vec![c, b, a]);
    // Every pixel maps to its own color.
    for (k, &p) in pixels.iter().enumerate() {
        assert_eq!(pal[idxs[k] as usize], p);
    }
}

#[test]
fn equal_counts_keep_first_appearance_order() {
    let a = rgb888_to_rgb565(10, 0, 0);
    let b = rgb888_to_rgb565(0, 10, 0);
    let c = rgb888_to_rgb565(0, 0, 10);
    let pixels = vec![b, c, a, b, c, a];
    let (pal, _) = build_palette(&pixels, 64);
    assert_eq!(pal, vec![b, c, a]);
}

#[test]
fn dropped_color_maps_to_nearest_entry() {
    let black = rgb888_to_rgb565(0, 0, 0);
    let white = rgb888_to_rgb565(255, 255, 255);
    let light_gray = rgb888_to_rgb565(200, 200, 200);
    // light_gray is the most common of three colors but only two fit:
    // the two rarest (black, white) form the palette, and light_gray
    // maps to the nearer of them.
    let pixels = vec![light_gray; 5]
        .into_iter()
        .chain(vec![white, white])
        .chain(vec![black])
        .collect::<Vec<u16>>();
    let (pal, idxs) = build_palette(&pixels, 2);
    assert_eq!(pal, vec![black, white]);
    for k in 0..5 {
        assert_eq!(pal[idxs[k] as usize], white);
    }
    assert_eq!(pal[idxs[5] as usize], white);
    assert_eq!(pal[idxs[7] as usize], black);
}

#[test]
fn palette_never_exceeds_the_cap() {
    let pixels: Vec<u16> = (0..300u16).map(|k| k * 5).collect();
    let (pal, idxs) = build_palette(&pixels, 64);
    assert!(pal.len() <= 64);
    assert_eq!(idxs.len(), pixels.len());
    for &i in &idxs {
        assert!((i as usize) < pal.len());
    }
}
