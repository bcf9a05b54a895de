use hdr_rust::image::{Bgr, ColorImage, Image};
use hdr_rust::response::{
    gen_random_integer, hat, histogram_bins, histogram_sampling, pick_samples, sample_observations,
    weight_table, Observation, BIN_COUNT,
};
use rand::rngs::StdRng;
use rand::SeedableRng;

fn image_of(rows: usize, cols: usize, px: &[(u8, u8, u8)]) -> ColorImage {
    Image { rows, cols, pixels: px.iter().map(|&(b, g, r)| Bgr { b, g, r }).collect() }
}

fn ramp(rows: usize, cols: usize, scale: u32) -> ColorImage {
    let mut px = Vec::new();
    for i in 0..(rows * cols) as u32 {
        let v = ((i * scale) % 256) as u8;
        px.push((v, 255 - v, v / 2));
    }
    image_of(rows, cols, &px)
}

#[test]
fn hat_peaks_at_midpoint() {
    assert_eq!(hat(0, 0, 255), 0);
    assert_eq!(hat(255, 0, 255), 0);
    assert_eq!(hat(127, 0, 255), 127);
    assert_eq!(hat(128, 0, 255), 127);
    assert_eq!(hat(10, 0, 255), 10);
    assert_eq!(hat(250, 0, 255), 5);
    assert_eq!(hat(5, 5, 15), 0);
    assert_eq!(hat(10, 5, 15), 5);
    assert_eq!(hat(12, 5, 15), 3);
}

#[test]
fn weight_table_matches_hat() {
    let w = weight_table();
    assert_eq!(w.len(), 256);
    for z in 0..256u32 {
        assert_eq!(w[z as usize], hat(z, 0, 255));
    }
    assert_eq!(w[127], 127);
    assert_eq!(w[200], 55);
}

#[test]
fn bins_follow_channel_average() {
    // green averages: (0+40)/2=20, (100+101)/2=100, (255+254)/2=254, (30+33)/2=31
    let a = image_of(2, 2, &[(0, 0, 0), (0, 100, 0), (0, 255, 0), (0, 30, 0)]);
    let b = image_of(2, 2, &[(0, 40, 0), (0, 101, 0), (0, 254, 0), (0, 33, 0)]);
    let bins = histogram_bins(&vec![a, b], 1, BIN_COUNT);
    assert_eq!(bins.len(), 8);
    assert_eq!(bins[0], vec![0, 3]);
    assert_eq!(bins[3], vec![1]);
    assert_eq!(bins[7], vec![2]);
    for k in [1usize, 2, 4, 5, 6] {
        assert!(bins[k].is_empty());
    }
    let two = histogram_bins(&vec![image_of(1, 1, &[(200, 0, 0)])], 0, 2);
    assert_eq!(two, vec![vec![], vec![0]]);
}

#[test]
fn pick_takes_indexed_entries_bin_by_bin() {
    let bins = vec![vec![4, 9], vec![], vec![1, 2, 3]];
    let draws = vec![vec![1, 1, 0], vec![], vec![2, 0]];
    assert_eq!(pick_samples(&bins, &draws), vec![9, 9, 4, 3, 1]);
}

#[test]
fn random_integer_stays_in_range() {
    let mut rng = StdRng::seed_from_u64(7);
    for _ in 0..200 {
        let v = gen_random_integer(&mut rng, 3, 9);
        assert!((3..9).contains(&v));
    }
    let draws: Vec<usize> = (0..200).map(|_| gen_random_integer(&mut rng, 0, 4)).collect();
    assert!(draws.iter().any(|&d| d != draws[0]));
}

#[test]
fn sampling_draws_evenly_from_non_empty_bins() {
    let images = vec![ramp(8, 8, 4), ramp(8, 8, 4)];
    let bins = histogram_bins(&images, 0, BIN_COUNT);
    let mut rng = StdRng::seed_from_u64(42);
    let samples = histogram_sampling(&images, 0, 64, BIN_COUNT, &mut rng);
    let non_empty = bins.iter().filter(|b| !b.is_empty()).count();
    assert_eq!(samples.len(), 8 * non_empty);
    let mut k = 0;
    for bin in bins.iter().filter(|b| !b.is_empty()) {
        for s in &samples[k..k + 8] {
            assert!(bin.contains(s));
        }
        k += 8;
    }
}

#[test]
fn sampling_is_reproducible_with_a_seed() {
    let images = vec![ramp(6, 7, 9), ramp(6, 7, 5), ramp(6, 7, 3)];
    let first = histogram_sampling(&images, 2, 40, BIN_COUNT, &mut StdRng::seed_from_u64(3));
    let second = histogram_sampling(&images, 2, 40, BIN_COUNT, &mut StdRng::seed_from_u64(3));
    assert_eq!(first, second);
}

#[test]
fn sampling_skips_empty_bins_and_small_counts() {
    let images = vec![image_of(1, 2, &[(10, 10, 10), (12, 12, 12)])];
    let mut rng = StdRng::seed_from_u64(1);
    let samples = histogram_sampling(&images, 0, 16, BIN_COUNT, &mut rng);
    assert_eq!(samples.len(), 2);
    assert!(samples.iter().all(|&s| s < 2));
    let none = histogram_sampling(&images, 0, 7, BIN_COUNT, &mut rng);
    assert!(none.is_empty());
}

#[test]
fn observations_read_channel_and_weight() {
    let a = image_of(1, 3, &[(1, 2, 3), (100, 200, 250), (0, 128, 255)]);
    let b = image_of(1, 3, &[(7, 8, 9), (10, 20, 30), (40, 50, 60)]);
    let obs = sample_observations(&vec![a, b], 2, &vec![2, 0, 2]);
    assert_eq!(obs.len(), 2);
    assert_eq!(obs[0], vec![
        Observation { z: 255, weight: 0 },
        Observation { z: 3, weight: 3 },
        Observation { z: 255, weight: 0 },
    ]);
    assert_eq!(obs[1], vec![
        Observation { z: 60, weight: 60 },
        Observation { z: 9, weight: 9 },
        Observation { z: 60, weight: 60 },
    ]);
}
