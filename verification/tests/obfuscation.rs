use laplace_rs::errors::LaplaceError;
use laplace_rs::ratio::{round_to_nearest_int, Ratio};
use laplace_rs::{
    get_from_cache_or_privatize, laplace, privatize, round_parametric, ObfCache,
    ObfuscateBelow10Mode,
};
use rand::distributions::Distribution;
use statrs::distribution::Laplace;

/// An `f64` as an exact-enough ratio with denominator `2^32`.
fn ratio_from_f64(x: f64) -> Ratio {
    let scaled = (x * 4294967296.0).round();
    let clamped = scaled.clamp(i64::MIN as f64, i64::MAX as f64);
    Ratio::new(clamped as i64, 4294967296)
}

fn ratio_to_f64(r: &Ratio) -> f64 {
    r.num as f64 / r.den as f64
}

fn draw(mu: f64, scale: f64) -> Ratio {
    let mut rng = rand::thread_rng();
    let dist = Laplace::new(mu, scale).unwrap();
    ratio_from_f64(dist.sample(&mut rng))
}

#[test]
fn test_laplace_err() {
    let mu = Ratio::from_int(10);
    let b = Ratio::from_int(0);
    let result = laplace(mu, b, Ratio::from_int(0));
    assert!(result.is_err());
}

#[test]
fn test_laplace_ok() {
    let mu = Ratio::from_int(10);
    let b = Ratio::from_int(1);
    let result = laplace(mu, b, draw(10.0, 1.0));
    assert!(result.is_ok());
}

#[test]
fn test_laplace_output_within_range() {
    let mu = Ratio::from_int(10);
    let b = Ratio::from_int(1);
    let result = laplace(mu, b, draw(10.0, 1.0)).unwrap();
    let x = ratio_to_f64(&result);
    assert!(x >= 10.0 - 10.0 * 1.0 && x <= 10.0 + 10.0 * 1.0);
}

#[test]
fn test_round_parametric() {
    assert_eq!(round_parametric(Ratio::new(16, 5), 1).unwrap(), 3);
    assert_eq!(round_parametric(Ratio::new(37, 10), 1).unwrap(), 4);
    assert_eq!(round_parametric(Ratio::new(64, 5), 5).unwrap(), 15);
    assert_eq!(round_parametric(Ratio::new(87, 5), 5).unwrap(), 15);
    assert_eq!(round_parametric(Ratio::new(191, 5), 10).unwrap(), 40);
    assert_eq!(round_parametric(Ratio::new(449, 10), 10).unwrap(), 40);
}

#[test]
fn test_round_parametric_zero() {
    assert_eq!(round_parametric(Ratio::from_int(0), 1).unwrap(), 0);
    assert_eq!(round_parametric(Ratio::from_int(0), 5).unwrap(), 0);
    assert_eq!(round_parametric(Ratio::from_int(0), 10).unwrap(), 0);
}

#[test]
fn test_round_parametric_large() {
    assert_eq!(round_parametric(Ratio::from_int(1_000_000), 1).unwrap(), 1_000_000);
    assert_eq!(round_parametric(Ratio::from_int(1_000_000), 5).unwrap(), 1_000_000);
    assert_eq!(round_parametric(Ratio::from_int(1_000_000), 10).unwrap(), 1_000_000);
}

#[test]
fn test_round_parametric_invalid_step() {
    let result = round_parametric(Ratio::from_int(10), 0);
    assert!(result.is_err());
}

#[test]
fn test_privatize_ok() {
    let value = 27;
    let sensitivity = Ratio::from_int(10);
    let epsilon = Ratio::new(1, 2);
    let rounding_step = 10;
    let noise = draw(0.0, 10.0 / 0.5);
    let result = privatize(value, sensitivity, epsilon, rounding_step, noise);
    assert!(result.is_ok());
}

#[test]
fn test_obfuscate_value_zero() {
    let result = get_from_cache_or_privatize(
        0,
        Ratio::from_int(1),
        Ratio::from_int(1),
        1,
        None,
        true,
        ObfuscateBelow10Mode::Obfuscate,
        1,
        draw(0.0, 1.0),
    );
    assert!(result.is_ok());
}

#[test]
fn test_obfuscate_value_non_zero() {
    let result = get_from_cache_or_privatize(
        10,
        Ratio::from_int(1),
        Ratio::from_int(1),
        1,
        None,
        true,
        ObfuscateBelow10Mode::Obfuscate,
        1,
        draw(0.0, 1.0),
    );
    assert!(result.is_ok());
}

#[test]
fn test_with_obf_cache() {
    let mut obf_cache: ObfCache = ObfCache::new();

    let result = get_from_cache_or_privatize(
        10,
        Ratio::from_int(1),
        Ratio::from_int(1),
        1,
        Some(&mut obf_cache),
        true,
        ObfuscateBelow10Mode::Obfuscate,
        1,
        draw(0.0, 1.0),
    );
    assert!(result.is_ok());

    let obfuscated_value = obf_cache.get(1, 10, 1);
    assert!(obfuscated_value.is_some());
    let result_ok = result.unwrap();
    assert_eq!(result_ok.clone(), obfuscated_value.unwrap());

    let result2 = get_from_cache_or_privatize(
        10,
        Ratio::from_int(1),
        Ratio::from_int(1),
        1,
        Some(&mut obf_cache),
        true,
        ObfuscateBelow10Mode::Obfuscate,
        1,
        draw(0.0, 1.0),
    );
    assert!(result2.is_ok());
    assert_eq!(result_ok, result2.unwrap());
}

#[test]
fn test_rounding_exact_halves_away_from_zero() {
    assert_eq!(round_to_nearest_int(Ratio::new(5, 2)), 3);
    assert_eq!(round_to_nearest_int(Ratio::new(-5, 2)), -3);
    assert_eq!(round_to_nearest_int(Ratio::new(7, 10)), 1);
    assert_eq!(round_to_nearest_int(Ratio::new(-7, 10)), -1);
    assert_eq!(round_to_nearest_int(Ratio::new(4, 10)), 0);
    assert_eq!(round_to_nearest_int(Ratio::from_int(9)), 9);
    // 2.5 rounds up to 3, so 2.5 with step 1 gives 3; with step 5, 2.5 -> 5
    assert_eq!(round_parametric(Ratio::new(5, 2), 5).unwrap(), 5);
    // negative noisy values clamp to zero, as the floating cast would
    assert_eq!(round_parametric(Ratio::from_int(-30), 10).unwrap(), 0);
}

#[test]
fn test_round_parametric_step_zero_error_kind() {
    let result = round_parametric(Ratio::from_int(10), 0);
    assert_eq!(result.unwrap_err(), LaplaceError::InvalidArgRoundingStepZero);
}

#[test]
fn test_privatize_nonpositive_scale_error_kind() {
    // sensitivity 0 makes the scale 0: the mechanism must refuse it
    let result = privatize(5, Ratio::from_int(0), Ratio::from_int(1), 10, Ratio::from_int(0));
    assert_eq!(result.unwrap_err(), LaplaceError::DistributionCreationError);
    // a negative epsilon flips the scale negative
    let result2 = privatize(5, Ratio::from_int(1), Ratio::from_int(-1), 10, Ratio::from_int(0));
    assert_eq!(result2.unwrap_err(), LaplaceError::DistributionCreationError);
}

#[test]
fn test_privatize_step_zero_propagates() {
    let result = privatize(5, Ratio::from_int(1), Ratio::from_int(1), 0, Ratio::from_int(0));
    assert_eq!(result.unwrap_err(), LaplaceError::InvalidArgRoundingStepZero);
}

#[test]
fn test_privatize_exact_value_with_known_noise() {
    // 27 + 4.9 = 31.9, rounded to the nearest multiple of 10 is 30
    let noise = Ratio::new(49, 10);
    let result = privatize(27, Ratio::from_int(1), Ratio::from_int(1), 10, noise);
    assert_eq!(result.unwrap(), 30);
    // 27 - 12.5 = 14.5, with step 10: 14.5 / 10 = 1.45 rounds to 1, so 10
    let noise2 = Ratio::new(-25, 2);
    let result2 = privatize(27, Ratio::from_int(1), Ratio::from_int(1), 10, noise2);
    assert_eq!(result2.unwrap(), 10);
}

#[test]
fn test_privatize_saturates_to_step_multiple() {
    // the noisy value overflows u64, and the result saturates to the
    // largest multiple of the step that fits: u64::MAX - 1 for step 7
    let result = privatize(
        u64::MAX,
        Ratio::from_int(1),
        Ratio::from_int(1),
        7,
        Ratio::from_int(100),
    )
    .unwrap();
    assert_eq!(result % 7, 0);
    assert_eq!(result, 18_446_744_073_709_551_614);
}

#[test]
fn test_suppression_zero_not_obfuscated() {
    let mut cache = ObfCache::new();
    let result = get_from_cache_or_privatize(
        0,
        Ratio::from_int(1),
        Ratio::from_int(1),
        1,
        Some(&mut cache),
        false,
        ObfuscateBelow10Mode::Obfuscate,
        1,
        draw(0.0, 1.0),
    );
    assert_eq!(result.unwrap(), 0);
}

#[test]
fn test_suppression_below_ten_modes() {
    for value in 1..10u64 {
        let mut cache = ObfCache::new();
        let ten = get_from_cache_or_privatize(
            value,
            Ratio::from_int(1),
            Ratio::from_int(1),
            1,
            Some(&mut cache),
            true,
            ObfuscateBelow10Mode::Ten,
            1,
            draw(0.0, 1.0),
        );
        assert_eq!(ten.unwrap(), 10);
        let zero = get_from_cache_or_privatize(
            value,
            Ratio::from_int(1),
            Ratio::from_int(1),
            1,
            Some(&mut cache),
            true,
            ObfuscateBelow10Mode::Zero,
            1,
            draw(0.0, 1.0),
        );
        assert_eq!(zero.unwrap(), 0);
    }
}

#[test]
fn test_cache_idempotence_many_calls() {
    let mut cache = ObfCache::new();
    let delta = Ratio::from_int(3);
    let eps = Ratio::new(1, 10);
    let first = get_from_cache_or_privatize(
        42,
        delta,
        eps,
        2,
        Some(&mut cache),
        false,
        ObfuscateBelow10Mode::Ten,
        10,
        draw(0.0, 30.0),
    )
    .unwrap();
    // the composite key coarsens the sensitivity to its nearest integer
    assert_eq!(cache.get(3, 42, 2), Some(first));
    // unrelated calls in between do not disturb the entry
    let _ = get_from_cache_or_privatize(
        77,
        delta,
        eps,
        2,
        Some(&mut cache),
        false,
        ObfuscateBelow10Mode::Ten,
        10,
        draw(0.0, 30.0),
    );
    for _ in 0..3 {
        let again = get_from_cache_or_privatize(
            42,
            delta,
            eps,
            2,
            Some(&mut cache),
            false,
            ObfuscateBelow10Mode::Ten,
            10,
            draw(0.0, 30.0),
        )
        .unwrap();
        assert_eq!(again, first);
    }
}

#[test]
fn test_count_of_exactly_ten_is_cached_under_its_key() {
    let mut cache = ObfCache::new();
    let first = get_from_cache_or_privatize(
        10,
        Ratio::from_int(1),
        Ratio::from_int(1),
        1,
        Some(&mut cache),
        false,
        ObfuscateBelow10Mode::Obfuscate,
        1,
        draw(0.0, 1.0),
    )
    .unwrap();
    assert_eq!(cache.get(1, 10, 1), Some(first));
    // the second call returns the cached value without using its noise
    let second = get_from_cache_or_privatize(
        10,
        Ratio::from_int(1),
        Ratio::from_int(1),
        1,
        Some(&mut cache),
        false,
        ObfuscateBelow10Mode::Obfuscate,
        1,
        Ratio::from_int(1_000_000),
    )
    .unwrap();
    assert_eq!(second, first);
}

#[test]
fn test_sensitivity_rounding_shares_cache_entries() {
    let mut cache = ObfCache::new();
    // delta 2.6 rounds to the class 3
    let first = get_from_cache_or_privatize(
        42,
        Ratio::new(13, 5),
        Ratio::from_int(1),
        1,
        Some(&mut cache),
        false,
        ObfuscateBelow10Mode::Ten,
        10,
        draw(0.0, 2.6),
    )
    .unwrap();
    // delta 3.2 rounds to the same class, so the entry is reused
    let second = get_from_cache_or_privatize(
        42,
        Ratio::new(16, 5),
        Ratio::from_int(1),
        1,
        Some(&mut cache),
        false,
        ObfuscateBelow10Mode::Ten,
        10,
        Ratio::from_int(1_000_000),
    )
    .unwrap();
    assert_eq!(second, first);
    assert_eq!(cache.get(3, 42, 1), Some(first));
}

#[test]
fn test_error_descriptions() {
    assert_eq!(
        LaplaceError::InvalidArgRoundingStepZero.describe(),
        "rounding step zero not allowed"
    );
    assert_eq!(
        LaplaceError::DistributionCreationError.describe(),
        "unable to create Laplace distribution: scale must be positive"
    );
    assert_eq!(
        LaplaceError::InvalidDomain.describe(),
        "invalid domain limit: must be absent or a positive non-zero number"
    );
    assert_eq!(LaplaceError::RoundingStepError.describe(), "rounding step error");
}
