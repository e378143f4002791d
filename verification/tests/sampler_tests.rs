use pointgen::sampler::{sample, sample_counted, clamp_to_range, MAX_ATTEMPTS};

#[test]
fn wide_spread_accepts_quickly() {
    // spread equal to the whole domain width: every candidate's weight is
    // at least three quarters of WEIGHT_ONE, so a run of rejections long
    // enough to reach the fallback is practically impossible
    let mut rng = rand::thread_rng();
    let mut worst: u64 = 0;
    for _ in 0..1000 {
        let (c, attempts) = sample_counted(&mut rng, 0, 60000, -30000, 30000);
        assert!(-30000 <= c && c < 30000);
        assert!(1 <= attempts && attempts <= MAX_ATTEMPTS);
        if attempts > worst {
            worst = attempts;
        }
    }
    assert!(worst < 10000);
}

#[test]
fn samples_stay_in_domain() {
    let mut rng = rand::thread_rng();
    for _ in 0..200 {
        let c = sample(&mut rng, 20000, 1000, -30000, 30000);
        assert!(-30000 <= c && c < 30000);
    }
}

#[test]
fn histogram_peaks_at_center_and_decays() {
    // bin 20000 samples by spread widths around the center: the inner
    // bins must clearly dominate the outer ones on each side
    let spread: i64 = 5000;
    let mut rng = rand::thread_rng();
    let mut bins = [0u32; 4];
    let mut total = 0u32;
    for _ in 0..20000 {
        let c = sample(&mut rng, 0, spread, -30000, 30000);
        total += 1;
        if -2 * spread <= c && c < -spread {
            bins[0] += 1;
        } else if -spread <= c && c < 0 {
            bins[1] += 1;
        } else if 0 <= c && c < spread {
            bins[2] += 1;
        } else if spread <= c && c < 2 * spread {
            bins[3] += 1;
        }
    }
    assert_eq!(total, 20000);
    assert!(bins[1] > bins[0]);
    assert!(bins[2] > bins[3]);
    // the peak region holds more than the flanks together
    assert!(bins[1] + bins[2] > bins[0] + bins[3]);
}

#[test]
fn clamp_picks_nearest_domain_point() {
    assert_eq!(clamp_to_range(-40000, -30000, 30000), -30000);
    assert_eq!(clamp_to_range(40000, -30000, 30000), 29999);
    assert_eq!(clamp_to_range(123, -30000, 30000), 123);
}
