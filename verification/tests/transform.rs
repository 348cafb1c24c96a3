use rustuna::distribution::Distribution;
use rustuna::error::{ErrorKind, Result};
use rustuna::float::Float;
use rustuna::key_map::KeyMap;
use rustuna::transform::{confine, SearchSpaceTransform};

fn f(value: f64) -> Float {
    Float::from_bits(value.to_bits())
}

fn g(value: Float) -> f64 {
    f64::from_bits(value.to_bits())
}

fn float(low: f64, high: f64, step: Option<f64>, log: bool) -> Distribution {
    Distribution::Float { low: f(low), high: f(high), step: step.map(f), log }
}

fn space_of(entries: &[(&str, Distribution)]) -> KeyMap<String, Distribution> {
    let mut space: KeyMap<String, Distribution> = KeyMap::new();
    for (name, distribution) in entries {
        space.insert(name.to_string(), *distribution);
    }
    space
}

fn params_of(entries: &[(&str, f64)]) -> KeyMap<String, Float> {
    let mut params: KeyMap<String, Float> = KeyMap::new();
    for (name, value) in entries {
        params.insert(name.to_string(), f(*value));
    }
    params
}

// The arithmetic on scaled values.

fn scaled(value: f64, log: bool) -> f64 {
    if log {
        value.ln()
    } else {
        value
    }
}

fn raw_bounds(distribution: &Distribution) -> (f64, f64) {
    match *distribution {
        Distribution::Float { low, high, step, log } => {
            let half = step.map(g).unwrap_or(0.0) / 2.0;
            (scaled(g(low), log) - half, scaled(g(high), log) + half)
        }
        Distribution::Int { low, high, step, log } => {
            let half = step as f64 / 2.0;
            (scaled(low as f64 - half, log), scaled(high as f64 + half, log))
        }
        Distribution::Categorical { .. } => panic!("not numerical"),
    }
}

fn is_log(distribution: &Distribution) -> bool {
    matches!(distribution, Distribution::Float { log: true, .. } | Distribution::Int { log: true, .. })
}

fn transform(t: &SearchSpaceTransform, params: &KeyMap<String, Float>) -> Result<Vec<f64>> {
    let vector = t.to_vector(params)?;
    Ok(vector
        .iter()
        .zip(t.distributions())
        .map(|(value, distribution)| {
            let (low, high) = raw_bounds(distribution);
            if low == high {
                0.5
            } else {
                (scaled(g(*value), is_log(distribution)) - low) / (high - low)
            }
        })
        .collect())
}

fn untransform(t: &SearchSpaceTransform, vector: &[f64]) -> Result<KeyMap<String, Float>> {
    let values: Vec<Float> = vector
        .iter()
        .zip(t.distributions())
        .map(|(value, distribution)| {
            let (low, high) = raw_bounds(distribution);
            let value = low + value * (high - low);
            f(match *distribution {
                Distribution::Float { log: true, .. } => value.exp(),
                Distribution::Float { low, step: Some(step), .. } => g(low) + ((value - g(low)) / g(step)).round_ties_even() * g(step),
                Distribution::Float { .. } => value,
                Distribution::Int { log: true, .. } => value.exp().round_ties_even(),
                Distribution::Int { low, step, .. } => low as f64 + ((value - low as f64) / step as f64).round_ties_even() * step as f64,
                Distribution::Categorical { .. } => panic!("not numerical"),
            })
        })
        .collect();
    t.from_vector(&values)
}

fn value_of(params: &KeyMap<String, Float>, name: &str) -> f64 {
    g(*params.get(&name.to_string()).unwrap())
}

fn assert_close(actual: f64, expected: f64) {
    assert!((actual - expected).abs() < 1e-12, "actual: {actual}, expected: {expected}");
}

#[test]
fn test_transform_and_untransform_numerical_search_space() -> Result<()> {
    let search_space = space_of(&[
        ("continuous", float(-2.0, 2.0, None, false)),
        ("discrete", float(0.0, 10.0, Some(2.0), false)),
        ("integer", Distribution::new_int(1, 5, 2, false)),
        ("log_float", float(1.0, std::f64::consts::E.powi(2), None, true)),
        ("log_integer", Distribution::new_int(1, 9, 1, true)),
    ]);
    let t = SearchSpaceTransform::new(&search_space)?;
    let entries = [
        ("continuous", 0.0),
        ("discrete", 2.0),
        ("integer", 3.0),
        ("log_float", std::f64::consts::E),
        ("log_integer", 3.0),
    ];
    let params = params_of(&entries);

    assert_eq!(t.parameter_names(), &vec!["continuous", "discrete", "integer", "log_float", "log_integer"]);

    let transformed = transform(&t, &params)?;
    assert_close(transformed[0], 0.5);
    assert_close(transformed[1], 0.25);
    assert_close(transformed[2], 0.5);
    assert_close(transformed[3], 0.5);
    assert_close(transformed[4], (3.0_f64.ln() - 0.5_f64.ln()) / (9.5_f64.ln() - 0.5_f64.ln()));
    assert!(transformed.iter().all(|v| (0.0..=1.0).contains(v)));

    let untransformed = untransform(&t, &transformed)?;
    for (name, value) in entries {
        assert_close(value_of(&untransformed, name), value);
    }
    Ok(())
}

#[test]
fn test_untransform_keeps_log_parameters_at_or_above_low() {
    // `exp` does not round-trip `ln`: for this range `(1e-7f64).ln().exp()` lands just below
    // 1e-7. Without the clamp the lower end of the range would leak out as a suggestion
    // below `low`.
    let low: f64 = 1e-7;
    assert!(low.ln().exp() < low, "the round trip is expected to undershoot");

    let t = SearchSpaceTransform::new(&space_of(&[("x", float(low, 1.0, None, true))])).unwrap();

    assert_eq!(value_of(&untransform(&t, &[0.0]).unwrap(), "x"), low);
    assert!(value_of(&untransform(&t, &[1.0]).unwrap(), "x") < 1.0);
}

#[test]
fn test_untransform_rounds_to_step() -> Result<()> {
    let search_space =
        space_of(&[("float", float(0.0, 10.0, Some(2.0), false)), ("int", Distribution::new_int(0, 10, 2, false))]);
    let t = SearchSpaceTransform::new(&search_space)?;

    let params = untransform(&t, &[0.41, 0.59])?;
    assert_eq!(value_of(&params, "float"), 4.0);
    assert_eq!(value_of(&params, "int"), 6.0);
    Ok(())
}

#[test]
fn test_new_rejects_categorical_distribution() {
    let search_space = space_of(&[("category", Distribution::new_categorical(2))]);
    let error = SearchSpaceTransform::new(&search_space).err().unwrap();
    assert!(matches!(error.kind, ErrorKind::UnsupportedSearchSpace));
    let error = SearchSpaceTransform::new(&KeyMap::new()).err().unwrap();
    assert!(matches!(error.kind, ErrorKind::UnsupportedSearchSpace));
}

#[test]
fn test_transform_rejects_missing_parameter() -> Result<()> {
    let t = SearchSpaceTransform::new(&space_of(&[("x", float(0.0, 1.0, None, false))]))?;
    assert!(transform(&t, &KeyMap::new()).is_err());
    assert!(untransform(&t, &[]).is_err());
    assert!(matches!(t.from_vector(&vec![f(0.5), f(0.5)]).err().unwrap().kind, ErrorKind::Unexpected));
    Ok(())
}

#[test]
fn values_are_kept_within_their_range() {
    let continuous = float(0.0, 1.0, None, false);
    assert_eq!(g(confine(f(-1.0), &continuous)), 0.0);
    assert_eq!(g(confine(f(2.0), &continuous)), 1.0_f64.next_down());
    assert_eq!(g(confine(f(0.25), &continuous)), 0.25);
    assert_eq!(g(confine(f(2.0), &float(0.0, 1.0, Some(0.5), false))), 1.0);
    assert_eq!(g(confine(f(2.0), &float(1.0, 1.0, None, false))), 2.0);
    assert_eq!(g(confine(f(-9.0), &Distribution::new_int(-4, 4, 1, false))), -4.0);
    assert_eq!(g(confine(f(9.0), &Distribution::new_int(-4, 4, 1, false))), 4.0);
}

#[test]
fn the_next_number_down_is_found() {
    for value in [1.0, -1.0, 0.0, -0.0, f64::MIN_POSITIVE, f64::INFINITY, f64::NEG_INFINITY, 1e300] {
        assert_eq!(g(f(value).next_down()), value.next_down());
    }
    assert!(g(f(f64::NAN).next_down()).is_nan());
}

#[test]
fn refusals_come_with_a_reason() {
    let empty = SearchSpaceTransform::new(&space_of(&[])).err().unwrap();
    assert_eq!(empty.reason, "Cannot transform an empty search space");
    let mixed = space_of(&[("z", Distribution::new_categorical(2)), ("a", float(0.0, 1.0, None, false)), ("b", Distribution::new_categorical(3))]);
    let categorical = SearchSpaceTransform::new(&mixed).err().unwrap();
    assert_eq!(categorical.reason, "Categorical distribution is not supported: b");
    let transform = SearchSpaceTransform::new(&space_of(&[("y", float(0.0, 1.0, None, false)), ("x", float(0.0, 1.0, None, false))])).unwrap();
    let missing = transform.to_vector(&params_of(&[("y", 0.5)])).err().unwrap();
    assert_eq!(missing.reason, "Parameter configuration is missing: x");
    let long = transform.from_vector(&vec![f(0.0); 3]).err().unwrap();
    assert_eq!(long.reason, "Expected 2 transformed parameters, got 3");
}
