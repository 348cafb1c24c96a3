use rand::rngs::StdRng;
use rand::{Rng, SeedableRng};
use rand_distr::{Distribution, Normal};
use rustuna::float::Float;
use rustuna::key_map::KeyMap;
use rustuna::mixture::{peak, pick_category, Kernels, MixtureOfProductDistribution};
use rustuna::tpe::best_candidate;

fn f(value: f64) -> Float {
    Float::from_bits(value.to_bits())
}

fn g(value: Float) -> f64 {
    f64::from_bits(value.to_bits())
}

fn row(values: &[f64]) -> Vec<Float> {
    values.iter().map(|v| f(*v)).collect()
}

// Draws.

fn truncated(rng: &mut StdRng, mu: f64, sigma: f64, low: f64, high: f64) -> f64 {
    let normal = Normal::new(mu, sigma).unwrap();
    loop {
        let drawn = normal.sample(rng);
        if (low..=high).contains(&drawn) {
            return drawn;
        }
    }
}

/// One value of each parameter, from kernels with the given centres, widths and weights.
fn draw(kernels: &Kernels, rng: &mut StdRng, mu: f64, sigma: f64, probs: &[f64]) -> Float {
    match *kernels {
        Kernels::TruncNorm { low, high } => f(truncated(rng, mu, sigma, g(low), g(high))),
        Kernels::TruncLogNorm { low, high } => f(truncated(rng, mu, sigma, g(low).ln(), g(high).ln()).exp()),
        Kernels::DiscreteTruncNorm { low, high, step } => {
            let (low, high, step) = (g(low), g(high), g(step));
            let drawn = truncated(rng, mu, sigma, low - step / 2.0, high + step / 2.0);
            kernels.settle(f(low + ((drawn - low) / step).round() * step))
        }
        Kernels::DiscreteTruncLogNorm { low, high, step } => {
            let (low, high, step) = (g(low), g(high), g(step));
            let drawn = truncated(rng, mu, sigma, (low - step / 2.0).ln(), (high + step / 2.0).ln()).exp();
            kernels.settle(f(low + ((drawn - low) / step).round() * step))
        }
        Kernels::Categorical { .. } => {
            let u = rng.gen::<f64>() * probs.iter().sum::<f64>();
            let mut total = 0.0;
            let cumulative: Vec<Float> = probs
                .iter()
                .map(|p| {
                    total += p;
                    f(total)
                })
                .collect();
            f(pick_category(&cumulative, f(u)) as f64)
        }
    }
}

fn kernels_by_name() -> KeyMap<String, Kernels> {
    let mut map: KeyMap<String, Kernels> = KeyMap::new();
    for (name, kernels) in [
        ("param_truncnorm", Kernels::TruncNorm { low: f(-1.0), high: f(1.0) }),
        ("param_trunclognorm", Kernels::TruncLogNorm { low: f(1.0), high: f(5.0) }),
        ("param_discretetruncnorm", Kernels::DiscreteTruncNorm { low: f(-1.0), high: f(1.0), step: f(1.0) }),
        ("param_discretetrunclognorm", Kernels::DiscreteTruncLogNorm { low: f(1.0), high: f(5.0), step: f(1.0) }),
        ("param_categorical", Kernels::Categorical { cardinality: 2 }),
    ] {
        map.insert(name.to_string(), kernels);
    }
    map
}

#[test]
fn test_mixture_of_product_distribution() {
    let mixture = MixtureOfProductDistribution::new(&kernels_by_name());
    let centres = |name: &str| match name {
        "param_truncnorm" => ([-0.5, 0.0], [2.0, 1.0]),
        "param_trunclognorm" => ([2.0, 3.0], [2.0, 1.0]),
        "param_discretetruncnorm" => ([-0.5, 0.0], [1.0, 1.0]),
        _ => ([2.0, 3.0], [1.0, 1.0]),
    };
    let probs = [[0.9, 0.1], [0.5, 0.5]];
    let mut rng = StdRng::seed_from_u64(42);
    for _ in 0..10 {
        let k = usize::from(rng.gen::<f64>() < 0.5);
        let mut sample: KeyMap<String, Float> = KeyMap::new();
        for (name, kernels) in mixture.param_names.iter().zip(&mixture.distributions) {
            let (mus, sigmas) = centres(name);
            sample.insert(name.clone(), draw(kernels, &mut rng, mus[k], sigmas[k], &probs[k]));
        }
        let value = |name: &str| g(*sample.get(&name.to_string()).unwrap());
        let val_truncnorm = value("param_truncnorm");
        assert!(val_truncnorm >= -1.0 && val_truncnorm <= 1.0);
        let val_trunclognorm = value("param_trunclognorm");
        assert!(val_trunclognorm >= 1.0 && val_trunclognorm <= 5.0);
        let val_discretetruncnorm = value("param_discretetruncnorm");
        assert!(val_discretetruncnorm >= -1.0 && val_discretetruncnorm <= 1.0);
        let val_discretetrunclognorm = value("param_discretetrunclognorm");
        assert!(val_discretetrunclognorm >= 1.0 && val_discretetrunclognorm <= 5.0);
        let val_categorical = value("param_categorical");
        assert!(val_categorical == 0.0 || val_categorical == 1.0);
        assert!(mixture.values_in_support(&sample).is_some());
    }
}

#[test]
fn parameters_stand_in_order() {
    let mixture = MixtureOfProductDistribution::new(&kernels_by_name());
    assert_eq!(
        mixture.param_names,
        vec!["param_categorical", "param_discretetrunclognorm", "param_discretetruncnorm", "param_trunclognorm", "param_truncnorm"]
    );
    assert!(matches!(mixture.distributions[0], Kernels::Categorical { cardinality: 2 }));
}

#[test]
fn densities_vanish_outside_the_support() {
    let norm = Kernels::TruncNorm { low: f(0.0), high: f(1.0) };
    assert!(norm.supports(f(0.0)) && norm.supports(f(1.0)) && !norm.supports(f(-0.1)) && !norm.supports(f(1.1)));
    let log = Kernels::TruncLogNorm { low: f(0.5), high: f(1.0) };
    assert!(log.supports(f(0.5)) && !log.supports(f(0.0)) && !log.supports(f(-1.0)) && !log.supports(f(2.0)));
    let discrete_log = Kernels::DiscreteTruncLogNorm { low: f(1.0), high: f(2.0), step: f(1.0) };
    assert!(discrete_log.supports(f(9.0)) && !discrete_log.supports(f(-0.0)));
    let discrete = Kernels::DiscreteTruncNorm { low: f(1.0), high: f(2.0), step: f(1.0) };
    assert!(discrete.supports(f(-9.0)));
    let category = Kernels::Categorical { cardinality: 2 };
    assert!(category.supports(f(1.0)) && category.supports(f(-3.0)) && !category.supports(f(2.0)) && !category.supports(f(f64::INFINITY)));

    let mut one: KeyMap<String, Kernels> = KeyMap::new();
    one.insert("x".to_string(), norm);
    let mixture = MixtureOfProductDistribution::new(&one);
    let mut x: KeyMap<String, Float> = KeyMap::new();
    assert_eq!(mixture.values_in_support(&x), None);
    x.insert("x".to_string(), f(2.0));
    assert_eq!(mixture.values_in_support(&x), None);
    x.insert("x".to_string(), f(0.5));
    assert_eq!(mixture.values_in_support(&x), Some(row(&[0.5])));
}

#[test]
fn rounded_draws_stay_in_range() {
    let kernels = Kernels::DiscreteTruncNorm { low: f(-1.0), high: f(2.0), step: f(1.0) };
    for (drawn, value) in [(-5.0, -1.0), (0.0, 0.0), (3.0, 2.0), (f64::NAN, -1.0), (f64::INFINITY, 2.0)] {
        assert_eq!(g(kernels.settle(f(drawn))), value);
    }
    assert_eq!(g(Kernels::TruncNorm { low: f(0.0), high: f(1.0) }.settle(f(7.0))), 7.0);
}

#[test]
fn categories_are_picked_by_weight() {
    let cumulative = row(&[0.25, 0.5, 0.5, 1.0]);
    for (u, picked) in [(0.0, 0), (0.25, 0), (0.3, 1), (0.5, 1), (0.75, 3), (1.5, 3), (f64::NAN, 3)] {
        assert_eq!(pick_category(&cumulative, f(u)), picked, "{u}");
    }
    assert!(Kernels::Categorical { cardinality: 4 }.supports(f(pick_category(&cumulative, f(9.0)) as f64)));
}

#[test]
fn the_largest_log_density_is_found() {
    let nothing = f64::NEG_INFINITY;
    assert_eq!(peak(&row(&[nothing, -3.0, f64::NAN, -1.0, -2.0])), Some(f(-1.0)));
    assert_eq!(peak(&row(&[nothing, f64::NAN, nothing])), None);
    assert_eq!(peak(&Vec::new()), None);
    assert_eq!(best_candidate(&row(&[nothing, 1.0, f64::NAN, 2.0, 2.0])), 3);
    assert_eq!(best_candidate(&row(&[f64::NAN, nothing])), 0);
}
