use blockify::color::{delta_e_sq, srgb_to_lab, Rgba};
use blockify::extract::{extract_dominant_color, Config};
use blockify::tree::Colors;
use blockify::Error;

#[test]
fn empty_index_fails() {
    let colors = Colors::new();
    let q = Rgba::new(32768, 32768, 32768, 65536);
    assert_eq!(colors.closest(&q), Err(Error::EmptyIndex));
    assert_eq!(colors.closest_lab(&srgb_to_lab(&q)), Err(Error::EmptyIndex));
}

#[test]
fn rgb_library_scenario() {
    // three textures whose representative colors approximate pure red,
    // green and blue; a 90% red / 10% green query must pick red
    let mut colors = Colors::new();
    for (pixel, id) in [
        (Rgba::new(65536, 0, 0, 65536), "red"),
        (Rgba::new(0, 65536, 0, 65536), "green"),
        (Rgba::new(0, 0, 65536, 65536), "blue"),
    ] {
        let texture: Vec<Rgba> = vec![pixel; 25];
        let dom = extract_dominant_color(&texture, &Config::default()).unwrap();
        colors.add(dom, id.to_string());
    }
    let q = Rgba::new(58982, 6554, 0, 65536);
    assert_eq!(colors.closest(&q), Ok("red".to_string()));
}

#[test]
fn nearest_matches_brute_force() {
    let entries: Vec<Rgba> = vec![
        Rgba::new(65536, 0, 0, 65536),
        Rgba::new(0, 65536, 0, 65536),
        Rgba::new(0, 0, 65536, 65536),
        Rgba::new(65536, 65536, 0, 65536),
        Rgba::new(0, 65536, 65536, 65536),
        Rgba::new(65536, 0, 65536, 65536),
        Rgba::new(20000, 40000, 60000, 65536),
        Rgba::new(60000, 40000, 20000, 65536),
        Rgba::new(32768, 32768, 32768, 65536),
        Rgba::new(65536, 65536, 65536, 65536),
    ];
    let mut colors = Colors::new();
    for (i, pixel) in entries.iter().enumerate() {
        colors.add(srgb_to_lab(pixel), format!("tex{}", i));
    }
    let queries: Vec<Rgba> = vec![
        Rgba::new(60000, 5000, 5000, 65536),
        Rgba::new(10000, 60000, 10000, 65536),
        Rgba::new(30000, 30000, 30000, 65536),
        Rgba::new(50000, 50000, 10000, 65536),
        Rgba::new(0, 0, 0, 65536),
    ];
    for q in &queries {
        let ql = srgb_to_lab(q);
        // brute force: lowest squared distance, first entry on ties
        let mut best: usize = 0;
        let mut bd = delta_e_sq(&srgb_to_lab(&entries[0]), &ql);
        for (i, pixel) in entries.iter().enumerate().skip(1) {
            let d = delta_e_sq(&srgb_to_lab(pixel), &ql);
            if d < bd {
                best = i;
                bd = d;
            }
        }
        assert_eq!(colors.closest(q), Ok(format!("tex{}", best)));
    }
}

#[test]
fn equidistant_entries_keep_first_inserted() {
    let mut colors = Colors::new();
    let c = srgb_to_lab(&Rgba::new(40000, 20000, 10000, 65536));
    colors.add(c, "first".to_string());
    colors.add(c, "second".to_string());
    assert_eq!(colors.closest_lab(&c), Ok("first".to_string()));
}
