use magic_eye::stereogram::{
    draw_root_colors, eye_columns, generate, link_columns, link_row, paint_row, palette_color,
    EyeSample, PALETTE_LEN,
};
use rand::rngs::SmallRng;
use rand::SeedableRng;

fn sample(sep: i32, visible: bool) -> EyeSample {
    EyeSample { sep, visible }
}

fn root(links: &[usize], mut x: usize) -> usize {
    while links[x] != x {
        x = links[x];
    }
    x
}

fn rgba(pixels: &[u8], width: usize, x: usize, y: usize) -> [u8; 4] {
    let o = 4 * (y * width + x);
    [pixels[o], pixels[o + 1], pixels[o + 2], pixels[o + 3]]
}

const PALETTE: [[u8; 4]; 10] = [
    [220, 50, 50, 255],
    [50, 200, 50, 255],
    [50, 50, 220, 255],
    [220, 200, 50, 255],
    [200, 50, 200, 255],
    [50, 200, 200, 255],
    [220, 130, 50, 255],
    [130, 50, 220, 255],
    [220, 220, 220, 255],
    [60, 60, 60, 255],
];

#[test]
fn eye_columns_even_separation() {
    assert_eq!(eye_columns(sample(90, true), 100, 0, 400), Some((55, 145)));
    assert_eq!(eye_columns(sample(90, true), 100, 1, 400), Some((55, 145)));
}

#[test]
fn eye_columns_odd_separation_alternates_by_row() {
    // Even row: (91 + 0) / 2 = 45; odd row: (91 + 1) / 2 = 46.
    assert_eq!(eye_columns(sample(91, true), 100, 0, 400), Some((55, 146)));
    assert_eq!(eye_columns(sample(91, true), 100, 1, 400), Some((54, 145)));
}

#[test]
fn eye_columns_outside_the_row() {
    // Left eye column would be negative.
    assert_eq!(eye_columns(sample(90, true), 10, 0, 400), None);
    // Right eye column would be past the last column.
    assert_eq!(eye_columns(sample(90, true), 380, 0, 400), None);
    // Exactly the last column is still inside.
    assert_eq!(eye_columns(sample(90, true), 354, 0, 400), Some((309, 399)));
}

#[test]
fn eye_columns_hidden_surface() {
    assert_eq!(eye_columns(sample(90, false), 100, 0, 400), None);
}

#[test]
fn eye_columns_zero_separation() {
    assert_eq!(eye_columns(sample(0, true), 7, 3, 8), Some((7, 7)));
}

#[test]
fn link_columns_joins_two_singletons() {
    let mut links: Vec<usize> = (0..5).collect();
    link_columns(&mut links, 1, 3);
    assert_eq!(links, vec![0, 3, 2, 3, 4]);
    assert_eq!(root(&links, 1), 3);
}

#[test]
fn link_columns_walks_existing_chains() {
    // Groups {0, 2} and {1, 3}; joining 0 and 3 makes one group led by 3.
    let mut links = vec![2, 3, 2, 3, 4];
    link_columns(&mut links, 0, 3);
    for x in [0, 1, 2, 3] {
        assert_eq!(root(&links, x), 3);
    }
    assert_eq!(root(&links, 4), 4);
}

#[test]
fn link_columns_already_joined_is_unchanged() {
    let mut links = vec![2, 1, 2];
    link_columns(&mut links, 0, 2);
    assert_eq!(links, vec![2, 1, 2]);
}

#[test]
fn link_row_groups_interleaved_pairs() {
    // Every pixel has separation 2: pixel x pairs columns x - 1 and x + 1.
    let samples = vec![sample(2, true); 6];
    let links = link_row(&samples, 0, 0, 6);
    let roots: Vec<usize> = (0..6).map(|x| root(&links, x)).collect();
    assert_eq!(roots, vec![4, 5, 4, 5, 4, 5]);
    for x in 0..6 {
        assert!(links[x] >= x && links[x] < 6);
    }
}

#[test]
fn link_row_without_visible_pixels_keeps_columns_apart() {
    let samples = vec![sample(2, false); 6];
    let links = link_row(&samples, 0, 0, 6);
    assert_eq!(links, vec![0, 1, 2, 3, 4, 5]);
}

#[test]
fn link_row_reads_its_own_row() {
    // Row 1 of a 4-wide map: only its pixels count.
    let mut samples = vec![sample(2, false); 8];
    samples[5] = sample(2, true);
    let links = link_row(&samples, 4, 1, 4);
    assert_eq!(root(&links, 0), 2);
    assert_eq!(root(&links, 2), 2);
    assert_eq!(root(&links, 1), 1);
    assert_eq!(root(&links, 3), 3);
}

#[test]
fn palette_colors() {
    for i in 0..PALETTE_LEN {
        let (r, g, b, a) = palette_color(i);
        assert_eq!([r, g, b, a], PALETTE[i]);
    }
}

#[test]
fn paint_row_copies_leader_colours() {
    let links = vec![2, 3, 2, 3];
    let draws = vec![9, 9, 4, 7];
    let mut pixels = vec![1u8; 4 * 4 + 8];
    paint_row(&mut pixels, 4, &links, &draws);
    assert_eq!(&pixels[0..4], &[1, 1, 1, 1]);
    assert_eq!(&pixels[20..24], &[1, 1, 1, 1]);
    assert_eq!(rgba(&pixels[4..20], 4, 0, 0), PALETTE[4]);
    assert_eq!(rgba(&pixels[4..20], 4, 1, 0), PALETTE[7]);
    assert_eq!(rgba(&pixels[4..20], 4, 2, 0), PALETTE[4]);
    assert_eq!(rgba(&pixels[4..20], 4, 3, 0), PALETTE[7]);
}

#[test]
fn draw_root_colors_stays_in_palette() {
    let mut rng = SmallRng::seed_from_u64(12345);
    let links: Vec<usize> = (0..200).collect();
    let draws = draw_root_colors(&links, &mut rng);
    assert_eq!(draws.len(), 200);
    assert!(draws.iter().all(|&d| d < PALETTE_LEN));
    // Independent draws from ten colours do not all land on one value.
    assert!(draws.iter().any(|&d| d != draws[0]));
}

#[test]
fn draw_root_colors_only_draws_for_leaders() {
    let mut rng = SmallRng::seed_from_u64(7);
    let links = vec![3, 3, 3, 3];
    let draws = draw_root_colors(&links, &mut rng);
    assert_eq!(&draws[0..3], &[0, 0, 0]);
}

#[test]
fn generate_satisfies_every_eye_pair() {
    let (w, h) = (64usize, 5usize);
    let mut samples = Vec::new();
    for y in 0..h {
        for x in 0..w {
            let sep = if (10..40).contains(&x) { 9 + (y as i32 % 2) } else { 12 };
            samples.push(sample(sep, x % 7 != 0));
        }
    }
    let mut rng = SmallRng::seed_from_u64(12345);
    let pixels = generate(&samples, w, h, &mut rng);
    assert_eq!(pixels.len(), w * h * 4);
    for y in 0..h {
        for x in 0..w {
            assert!(PALETTE.contains(&rgba(&pixels, w, x, y)));
            if let Some((l, r)) = eye_columns(samples[y * w + x], x, y, w) {
                assert_eq!(rgba(&pixels, w, l, y), rgba(&pixels, w, r, y));
            }
        }
    }
}

#[test]
fn generate_empty_image() {
    let mut rng = SmallRng::seed_from_u64(1);
    assert!(generate(&[], 0, 0, &mut rng).is_empty());
    assert!(generate(&[], 5, 0, &mut rng).is_empty());
}

#[test]
fn generate_is_repeatable_for_a_seed() {
    let samples = vec![sample(3, true); 40];
    let a = generate(&samples, 10, 4, &mut SmallRng::seed_from_u64(99));
    let b = generate(&samples, 10, 4, &mut SmallRng::seed_from_u64(99));
    assert_eq!(a, b);
}
