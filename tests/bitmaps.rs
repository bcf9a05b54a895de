use hdr_rust::bitmap::{compute_exclusive_image, compute_image_similarity, compute_mtb_image, find_median};
use hdr_rust::gray::{cvt_rgb_image_to_grey, mix_rgb_to_gray};
use hdr_rust::image::{translate, Bgr, ColorImage, GrayImage, Image};

fn grey_pixel(v: u8) -> Bgr {
    Bgr { b: v, g: v, r: v }
}

fn color_from_levels(rows: usize, cols: usize, levels: &[u8]) -> ColorImage {
    Image { rows, cols, pixels: levels.iter().map(|&v| grey_pixel(v)).collect() }
}

fn gray(rows: usize, cols: usize, levels: &[u8]) -> GrayImage {
    Image { rows, cols, pixels: levels.to_vec() }
}

#[test]
fn mix_rgb_to_gray_weights() {
    assert_eq!(mix_rgb_to_gray(0, 0, 0), 0);
    assert_eq!(mix_rgb_to_gray(255, 255, 255), 255);
    // (19 * 10 + 183 * 20 + 54 * 30) / 256 = 5470 / 256
    assert_eq!(mix_rgb_to_gray(10, 20, 30), 21);
    assert_eq!(mix_rgb_to_gray(255, 0, 0), 18);
    assert_eq!(mix_rgb_to_gray(0, 0, 255), 53);
}

#[test]
fn grey_conversion_keeps_shape() {
    let img = Image {
        rows: 1,
        cols: 2,
        pixels: vec![Bgr { b: 10, g: 20, r: 30 }, Bgr { b: 255, g: 255, r: 255 }],
    };
    let g = cvt_rgb_image_to_grey(&img);
    assert_eq!(g.rows, 1);
    assert_eq!(g.cols, 2);
    assert_eq!(g.pixels, vec![21, 255]);
}

#[test]
fn median_of_small_images() {
    assert_eq!(find_median(&gray(2, 2, &[4, 1, 3, 2])), 2);
    assert_eq!(find_median(&gray(1, 3, &[5, 5, 5])), 5);
    assert_eq!(find_median(&gray(1, 5, &[9, 200, 7, 100, 50])), 9);
    // half of one pixel rounds down to none: the lowest level qualifies
    assert_eq!(find_median(&gray(1, 1, &[7])), 0);
    assert_eq!(find_median(&gray(0, 0, &[])), 0);
}

#[test]
fn mtb_sets_pixels_above_median() {
    let img = color_from_levels(2, 3, &[10, 60, 30, 50, 20, 40]);
    let mtb = compute_mtb_image(&img);
    // median is 30: three of six pixels lie above it
    assert_eq!(mtb.pixels, vec![0, 255, 0, 255, 0, 255]);
    assert_eq!(mtb.pixels.iter().filter(|&&v| v == 255).count(), 3);
}

#[test]
fn mtb_half_on_distinct_levels() {
    let levels: Vec<u8> = (0..25u32).map(|i| ((i * 37 + 11) % 251) as u8).collect();
    let img = color_from_levels(5, 5, &levels);
    let mtb = compute_mtb_image(&img);
    let ones = mtb.pixels.iter().filter(|&&v| v == 255).count();
    assert_eq!(ones, 25 - 25 / 2);
}

#[test]
fn mtb_of_flat_image_is_empty() {
    let img = color_from_levels(2, 2, &[80, 80, 80, 80]);
    let mtb = compute_mtb_image(&img);
    assert_eq!(mtb.pixels, vec![0, 0, 0, 0]);
}

#[test]
fn exclusion_band_around_median() {
    let img = color_from_levels(1, 7, &[100, 96, 95, 104, 105, 10, 250]);
    // sorted: 10 95 96 100 104 105 250, half = 3 -> median 96
    let ex = compute_exclusive_image(&img, 4);
    assert_eq!(ex.pixels, vec![0, 0, 0, 255, 255, 255, 255]);
}

#[test]
fn exclusion_band_clipped_at_ends() {
    let img = color_from_levels(1, 4, &[0, 1, 2, 200]);
    let ex = compute_exclusive_image(&img, 4);
    assert_eq!(ex.pixels, vec![0, 0, 0, 255]);
    let bright = color_from_levels(1, 4, &[255, 254, 253, 10]);
    let ex = compute_exclusive_image(&bright, 4);
    // median is 253
    assert_eq!(ex.pixels, vec![0, 0, 0, 255]);
}

#[test]
fn similarity_counts_kept_disagreements() {
    let am = gray(1, 4, &[255, 0, 255, 0]);
    let bm = gray(1, 4, &[0, 0, 0, 255]);
    let ae = gray(1, 4, &[255, 255, 0, 255]);
    let be = gray(1, 4, &[255, 255, 255, 255]);
    // position 0 and 3 disagree and are kept; position 2 disagrees but is excluded
    assert_eq!(compute_image_similarity(&am, &ae, &bm, &be), 2);
    assert_eq!(compute_image_similarity(&am, &ae, &am, &ae), 0);
}

#[test]
fn translate_moves_right_and_down() {
    let img = gray(2, 3, &[1, 2, 3, 4, 5, 6]);
    let moved = translate(&img, 1, 1, 0u8);
    assert_eq!(moved.pixels, vec![0, 0, 0, 0, 1, 2]);
    let back = translate(&img, -1, 0, 9u8);
    assert_eq!(back.pixels, vec![2, 3, 9, 5, 6, 9]);
    let same = translate(&img, 0, 0, 0u8);
    assert_eq!(same.pixels, img.pixels);
    let away = translate(&img, 5, 0, 7u8);
    assert_eq!(away.pixels, vec![7; 6]);
}

#[test]
fn image_constructor_checks_length() {
    assert!(Image::new(2, 2, vec![0u8; 4]).is_some());
    assert!(Image::new(2, 2, vec![0u8; 3]).is_none());
    assert!(Image::new(usize::MAX, 2, vec![0u8; 3]).is_none());
}
