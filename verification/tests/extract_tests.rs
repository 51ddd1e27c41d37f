use blockify::color::{delta_e_sq, srgb_to_lab, Lab, Rgba};
use blockify::extract::{extract_dominant_color, Config};
use blockify::kmeans::get_kmeans;
use blockify::Error;

fn red() -> Rgba {
    Rgba::new(65536, 0, 0, 65536)
}

fn green() -> Rgba {
    Rgba::new(0, 65536, 0, 65536)
}

fn blue() -> Rgba {
    Rgba::new(0, 0, 65536, 65536)
}

fn white() -> Rgba {
    Rgba::new(65536, 65536, 65536, 65536)
}

fn mixed_pixels() -> Vec<Rgba> {
    let mut pixels: Vec<Rgba> = Vec::new();
    for i in 0..16 {
        let v: u32 = (i as u32) * 4096;
        pixels.push(Rgba::new(v, 65536 - v, 32768, 65536));
        pixels.push(red());
        pixels.push(green());
        pixels.push(blue());
        pixels.push(white());
    }
    pixels
}

fn small_config() -> Config {
    Config { runs: 5, k: 3, max_iter: 100, converge: 25, seed: 7 }
}

#[test]
fn default_config_values() {
    let cfg = Config::default();
    assert_eq!(cfg.runs, 100);
    assert_eq!(cfg.k, 5);
    assert_eq!(cfg.max_iter, u64::MAX);
    assert_eq!(cfg.converge, 25);
    assert_eq!(cfg.seed, 0);
}

#[test]
fn conversion_known_values() {
    let w = srgb_to_lab(&white());
    assert_eq!(w, Lab { l: 25600, a: 0, b: -1, alpha: 256 });
    let k = srgb_to_lab(&Rgba::new(0, 0, 0, 65536));
    assert_eq!(k, Lab { l: -1, a: 0, b: 0, alpha: 256 });
    let r = srgb_to_lab(&red());
    assert_eq!(r, Lab { l: 13627, a: 20509, b: 17214, alpha: 256 });
    let g = srgb_to_lab(&green());
    assert_eq!(g, Lab { l: 22460, a: -22064, b: 21296, alpha: 256 });
    let b = srgb_to_lab(&blue());
    assert_eq!(b, Lab { l: 8268, a: 20277, b: -27614, alpha: 256 });
}

#[test]
fn delta_e_sq_exact() {
    let p = Lab { l: 0, a: 0, b: 0, alpha: 0 };
    let q = Lab { l: 1, a: -2, b: 3, alpha: -4 };
    assert_eq!(delta_e_sq(&p, &q), 1 + 4 + 9 + 16);
    assert_eq!(delta_e_sq(&q, &q), 0);
}

#[test]
fn empty_input_is_invalid() {
    let pixels: Vec<Rgba> = Vec::new();
    let r = extract_dominant_color(&pixels, &Config::default());
    assert_eq!(r, Err(Error::InvalidInput));
}

#[test]
fn single_gray_pixel_yields_its_own_color() {
    // a single pixel of exact color (0.5, 0.5, 0.5, 1.0), for several
    // cluster and run counts
    let gray = Rgba::new(32768, 32768, 32768, 65536);
    let expected = srgb_to_lab(&gray);
    assert_eq!(expected, Lab { l: 14611, a: -1, b: 0, alpha: 256 });
    for (k, runs) in [(1usize, 1u64), (2, 1), (5, 3), (5, 100)] {
        let cfg = Config { k, runs, ..Config::default() };
        let r = extract_dominant_color(&vec![gray], &cfg);
        assert_eq!(r, Ok(expected));
    }
}

#[test]
fn uniform_texture_yields_its_color() {
    let pixels: Vec<Rgba> = vec![red(); 50];
    let r = extract_dominant_color(&pixels, &Config::default());
    assert_eq!(r, Ok(srgb_to_lab(&red())));
}

#[test]
fn extraction_is_deterministic() {
    let pixels = mixed_pixels();
    let cfg = small_config();
    let a = extract_dominant_color(&pixels, &cfg);
    let b = extract_dominant_color(&pixels, &cfg);
    assert!(a.is_ok());
    assert_eq!(a, b);
}

#[test]
fn dominant_cluster_is_the_populous_one() {
    // 30 red pixels against 10 blue ones: the best two-cluster run splits
    // them cleanly, and the dominant color is the red cluster's centroid,
    // which is exactly the shared red of its members
    let mut pixels: Vec<Rgba> = vec![red(); 30];
    pixels.extend(vec![blue(); 10]);
    let cfg = Config { runs: 10, k: 2, max_iter: 50, converge: 25, seed: 1 };
    let r = extract_dominant_color(&pixels, &cfg);
    assert_eq!(r, Ok(srgb_to_lab(&red())));
}

#[test]
fn dominant_cluster_majority_gray() {
    let mut pixels: Vec<Rgba> = vec![Rgba::new(32768, 32768, 32768, 65536); 3];
    pixels.push(white());
    let cfg = Config { runs: 8, k: 2, max_iter: 50, converge: 25, seed: 0 };
    let r = extract_dominant_color(&pixels, &cfg);
    assert_eq!(r, Ok(srgb_to_lab(&Rgba::new(32768, 32768, 32768, 65536))));
}

#[test]
fn best_of_n_keeps_the_lowest_score() {
    let pixels = mixed_pixels();
    let labs: Vec<Lab> = pixels.iter().map(srgb_to_lab).collect();
    let mut scores: Vec<u64> = Vec::new();
    for i in 0..6u64 {
        scores.push(get_kmeans(3, 100, 25, &labs, i).score);
    }
    // the fold the extractor performs: strictly lower wins, first run on ties
    let mut best5 = scores[0];
    for &s in &scores[1..5] {
        if s < best5 {
            best5 = s;
        }
    }
    for &s in &scores[..5] {
        assert!(best5 <= s);
    }
    // one more run never worsens the kept score
    let best6 = if scores[5] < best5 { scores[5] } else { best5 };
    assert!(best6 <= best5);
}
