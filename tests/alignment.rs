use hdr_rust::alignment::{align, find_offset, search_level, compute_image_pyramid, AlignError};
use hdr_rust::image::{translate, Bgr, ColorImage, Image};

fn grey_pixel(v: u8) -> Bgr {
    Bgr { b: v, g: v, r: v }
}

/// A scene larger than the frame, sampled with its content moved by (dx, dy).
fn frame(rows: usize, cols: usize, dx: i64, dy: i64, scene: &dyn Fn(i64, i64) -> u8) -> ColorImage {
    let mut pixels = Vec::new();
    for r in 0..rows as i64 {
        for c in 0..cols as i64 {
            pixels.push(grey_pixel(scene(r - dy, c - dx)));
        }
    }
    Image { rows, cols, pixels }
}

fn noise(r: i64, c: i64) -> u8 {
    let mut x = (r * 7919 + c * 104729 + 12345) as u64;
    x ^= x >> 13;
    x = x.wrapping_mul(0x9E3779B97F4A7C15);
    x ^= x >> 29;
    (x % 256) as u8
}

fn blobs(r: i64, c: i64) -> u8 {
    let (y, x) = (r as f64, c as f64);
    let v = 128.0 + 60.0 * (y / 3.0).sin() * (x / 4.0).cos() + 40.0 * ((x + y) / 5.0).sin();
    v.round().clamp(0.0, 255.0) as u8
}

/// Halves an image by averaging each 2x2 block.
fn halve(img: &ColorImage) -> ColorImage {
    let rows = img.rows / 2;
    let cols = img.cols / 2;
    let mut pixels = Vec::new();
    for r in 0..rows {
        for c in 0..cols {
            let at = |rr: usize, cc: usize| img.pixels[rr * img.cols + cc].g as u32;
            let s = at(2 * r, 2 * c) + at(2 * r + 1, 2 * c) + at(2 * r, 2 * c + 1) + at(2 * r + 1, 2 * c + 1);
            pixels.push(grey_pixel(((s + 2) / 4) as u8));
        }
    }
    Image { rows, cols, pixels }
}

fn pyramid(img: &ColorImage, levels: usize) -> Vec<ColorImage> {
    let mut out = vec![img.clone()];
    while out.len() < levels {
        let next = halve(out.last().unwrap());
        out.push(next);
    }
    out
}

#[test]
fn self_alignment_has_zero_offset() {
    let img = frame(16, 16, 0, 0, &noise);
    for levels in 1..=3usize {
        let p = pyramid(&img, levels);
        assert_eq!(find_offset(&p, &p, levels as u8), Ok((0, 0)));
    }
    let smooth = frame(32, 32, 0, 0, &blobs);
    let p = pyramid(&smooth, 3);
    assert_eq!(find_offset(&p, &p, 3), Ok((0, 0)));
}

#[test]
fn self_alignment_each_level_stays_put() {
    let img = frame(12, 10, 0, 0, &noise);
    let levels = compute_image_pyramid(&vec![img]);
    assert_eq!(search_level(&levels[0], &levels[0], 0, 0), (0, 0));
}

#[test]
fn one_level_recovers_unit_shift() {
    let reference = frame(16, 16, 0, 0, &noise);
    for (dx, dy) in [(1i64, 0i64), (0, 1), (-1, 1), (1, -1), (-1, -1)] {
        let moved = frame(16, 16, dx, dy, &noise);
        let off = find_offset(&vec![moved], &vec![reference.clone()], 1).unwrap();
        assert_eq!(off, (-dx, -dy));
    }
}

#[test]
fn pyramid_recovers_larger_shift() {
    let reference = frame(32, 32, 0, 0, &blobs);
    let moved = frame(32, 32, 2, -3, &blobs);
    let off = find_offset(&pyramid(&moved, 3), &pyramid(&reference, 3), 3).unwrap();
    assert_eq!(off, (-2, 3));
}

#[test]
fn align_moves_others_and_keeps_pivot() {
    let reference = frame(16, 16, 0, 0, &noise);
    let left = frame(16, 16, 1, 0, &noise);
    let right = frame(16, 16, 0, -1, &noise);
    let stack = vec![vec![left.clone()], vec![reference.clone()], vec![right.clone()]];
    let out = align(&stack, 1).unwrap();
    assert_eq!(out.len(), 3);
    assert_eq!(out[1].pixels, reference.pixels);
    assert_eq!(out[0].pixels, translate(&left, -1, 0, grey_pixel(0)).pixels);
    assert_eq!(out[2].pixels, translate(&right, 0, 1, grey_pixel(0)).pixels);
    // away from the uncovered border the aligned frames match the reference
    for r in 0..16 {
        for c in 0..15 {
            assert_eq!(out[0].pixels[r * 16 + c], reference.pixels[r * 16 + c]);
        }
    }
}

#[test]
fn align_rejects_bad_levels() {
    let img = frame(4, 4, 0, 0, &noise);
    let stack = vec![vec![img.clone()], vec![img.clone()]];
    assert_eq!(align(&stack, 0).unwrap_err(), AlignError::InvalidLevel);
    assert_eq!(align(&stack, 64).unwrap_err(), AlignError::InvalidLevel);
    assert_eq!(find_offset(&vec![img.clone()], &vec![img.clone()], 0), Err(AlignError::InvalidLevel));
}

#[test]
fn align_rejects_empty_stack() {
    let stack: Vec<Vec<ColorImage>> = Vec::new();
    assert_eq!(align(&stack, 1).unwrap_err(), AlignError::NoExposures);
}

#[test]
fn align_rejects_mismatched_sizes() {
    let a = frame(4, 4, 0, 0, &noise);
    let b = frame(4, 5, 0, 0, &noise);
    let stack = vec![vec![a.clone()], vec![b.clone()]];
    assert_eq!(align(&stack, 1).unwrap_err(), AlignError::IncompatibleGeometry);
    let short = vec![vec![a.clone()], vec![a.clone(), halve(&a)]];
    assert_eq!(align(&short, 2).unwrap_err(), AlignError::IncompatibleGeometry);
    assert_eq!(find_offset(&vec![a.clone()], &vec![b], 1), Err(AlignError::IncompatibleGeometry));
}

#[test]
fn align_single_exposure_is_passed_through() {
    let img = frame(3, 3, 0, 0, &noise);
    let out = align(&vec![vec![img.clone()]], 1).unwrap();
    assert_eq!(out.len(), 1);
    assert_eq!(out[0].pixels, img.pixels);
}

#[test]
fn align_identical_stack_is_unchanged() {
    let img = frame(32, 32, 0, 0, &blobs);
    let p = pyramid(&img, 3);
    let out = align(&vec![p.clone(), p.clone(), p.clone(), p.clone()], 3).unwrap();
    assert_eq!(out.len(), 4);
    for o in &out {
        assert_eq!(o.pixels, img.pixels);
    }
}

#[test]
fn find_offset_succeeds_on_matching_pyramids() {
    let a = frame(8, 8, 0, 0, &noise);
    let b = frame(8, 8, 1, 1, &noise);
    assert!(find_offset(&pyramid(&a, 2), &pyramid(&b, 2), 2).is_ok());
}
