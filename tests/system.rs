use hdr_rust::image::{Bgr, ColorImage, Image};
use hdr_rust::response::{
    prepare_channel, response_system, sample_observations, Observation, SolveError, Term, ANCHOR_LEVEL, BIN_COUNT,
};
use rand::rngs::StdRng;
use rand::SeedableRng;

fn flat(rows: usize, cols: usize, v: (u8, u8, u8)) -> ColorImage {
    Image { rows, cols, pixels: vec![Bgr { b: v.0, g: v.1, r: v.2 }; rows * cols] }
}

fn stripes(rows: usize, cols: usize, shift: u8) -> ColorImage {
    let mut pixels = Vec::new();
    for i in 0..rows * cols {
        let v = ((i * 16) as u8).wrapping_add(shift);
        pixels.push(Bgr { b: v, g: v / 2, r: 255 - v });
    }
    Image { rows, cols, pixels }
}

#[test]
fn system_rows_in_order() {
    let obs = vec![
        vec![Observation { z: 10, weight: 10 }, Observation { z: 200, weight: 55 }],
        vec![Observation { z: 20, weight: 20 }, Observation { z: 255, weight: 0 }],
    ];
    let sys = response_system(&obs, 2);
    assert_eq!(sys.fit.len(), 4);
    assert_eq!(sys.fit[1].terms, vec![Term { col: 200, coeff: 55 }, Term { col: 257, coeff: -55 }]);
    assert_eq!(sys.fit[1].rhs_weight, 55);
    assert_eq!(sys.fit[1].rhs_exposure, 0);
    assert_eq!(sys.fit[2].terms, vec![Term { col: 20, coeff: 20 }, Term { col: 256, coeff: -20 }]);
    assert_eq!(sys.fit[2].rhs_exposure, 1);
    assert!(!sys.fit[3].lambda_scaled);
    assert_eq!(sys.anchor.terms, vec![Term { col: ANCHOR_LEVEL, coeff: 1 }]);
    assert_eq!(sys.anchor.rhs_weight, 0);
    assert_eq!(sys.smooth.len(), 254);
    assert_eq!(
        sys.smooth[0].terms,
        vec![Term { col: 0, coeff: 1 }, Term { col: 1, coeff: -2 }, Term { col: 2, coeff: 1 }]
    );
    assert_eq!(
        sys.smooth[126].terms,
        vec![Term { col: 126, coeff: 127 }, Term { col: 127, coeff: -254 }, Term { col: 128, coeff: 127 }]
    );
    assert_eq!(
        sys.smooth[253].terms,
        vec![Term { col: 253, coeff: 1 }, Term { col: 254, coeff: -2 }, Term { col: 255, coeff: 1 }]
    );
    assert!(sys.smooth.iter().all(|r| r.lambda_scaled && r.rhs_weight == 0));
}

#[test]
fn system_without_samples_keeps_anchor_and_smoothness() {
    let obs: Vec<Vec<Observation>> = vec![vec![], vec![]];
    let sys = response_system(&obs, 0);
    assert!(sys.fit.is_empty());
    assert_eq!(sys.smooth.len(), 254);
}

#[test]
fn prepare_channel_rejects_bad_input() {
    let mut rng = StdRng::seed_from_u64(0);
    let empty: Vec<ColorImage> = Vec::new();
    assert_eq!(prepare_channel(&empty, 0, 16, &mut rng).unwrap_err(), SolveError::NoExposures);
    let mixed = vec![flat(2, 2, (1, 2, 3)), flat(2, 3, (1, 2, 3))];
    assert_eq!(prepare_channel(&mixed, 1, 16, &mut rng).unwrap_err(), SolveError::IncompatibleGeometry);
    let ok = vec![flat(2, 2, (1, 2, 3))];
    assert_eq!(prepare_channel(&ok, 3, 16, &mut rng).unwrap_err(), SolveError::InvalidChannel);
}

#[test]
fn prepare_channel_ties_samples_observations_and_rows() {
    let images = vec![stripes(4, 4, 0), stripes(4, 4, 40), stripes(4, 4, 80)];
    let mut rng = StdRng::seed_from_u64(11);
    let cs = prepare_channel(&images, 0, 8 * BIN_COUNT, &mut rng).unwrap();
    assert!(!cs.samples.is_empty());
    assert_eq!(cs.samples.len() % 8, 0);
    assert_eq!(cs.observations, sample_observations(&images, 0, &cs.samples));
    let s = cs.samples.len();
    assert_eq!(cs.system.fit.len(), 3 * s);
    for k in 0..3 {
        for i in 0..s {
            let o = cs.observations[k][i];
            let row = &cs.system.fit[k * s + i];
            assert_eq!(o.z, images[k].pixels[cs.samples[i]].b);
            assert_eq!(row.terms[0], Term { col: o.z as usize, coeff: o.weight as i64 });
            assert_eq!(row.terms[1], Term { col: 256 + i, coeff: -(o.weight as i64) });
            assert_eq!(row.rhs_exposure, k);
        }
    }
}

#[test]
fn single_color_stack_samples_one_bin() {
    let images = vec![flat(4, 4, (25, 25, 25)), flat(4, 4, (76, 76, 76)), flat(4, 4, (255, 255, 255))];
    let mut rng = StdRng::seed_from_u64(5);
    let cs = prepare_channel(&images, 2, 16, &mut rng).unwrap();
    // every pixel averages (25 + 76 + 255) / 3 = 118, bin 3: two draws from it
    assert_eq!(cs.samples.len(), 2);
    assert_eq!(cs.observations[0][0], Observation { z: 25, weight: 25 });
    assert_eq!(cs.observations[1][1], Observation { z: 76, weight: 76 });
    assert_eq!(cs.observations[2][0], Observation { z: 255, weight: 0 });
}
