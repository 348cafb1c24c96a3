use rand::rngs::StdRng;
use rand::seq::SliceRandom;
use rand::{Rng, SeedableRng};

use rustuna::distribution::Distribution;
use rustuna::error::ErrorKind;
use rustuna::float::Float;
use rustuna::key_map::Same;
use rustuna::order::sorted_positions;
use rustuna::sampler::{clamp_index, RandomSampler};
use rustuna::text::{
    char_codes, decimal_text, has_prefix, hex_text, joined, parse_i64, parse_u32, parse_u64, signed_text, text_from, texts_equal,
};

fn f(value: f64) -> Float {
    Float::from_bits(value.to_bits())
}

fn g(value: Float) -> f64 {
    f64::from_bits(value.to_bits())
}

const SAMPLES: [f64; 14] = [
    0.0,
    -0.0,
    1.0,
    -1.0,
    0.5,
    -2.5,
    f64::MIN_POSITIVE,
    5e-324,
    -5e-324,
    f64::MAX,
    f64::MIN,
    f64::INFINITY,
    f64::NEG_INFINITY,
    f64::NAN,
];

#[test]
fn floats_compare_like_numbers() {
    for a in SAMPLES {
        assert_eq!(f(a).is_nan(), a.is_nan());
        assert_eq!(f(a).is_finite(), a.is_finite());
        assert_eq!(f(a).neg().to_bits(), (-a).to_bits());
        for b in SAMPLES {
            assert_eq!(f(a).lt(f(b)), a < b, "{a} < {b}");
            assert_eq!(f(a).num_eq(f(b)), a == b, "{a} == {b}");
            assert_eq!(f(a).total_lt(f(b)), a.total_cmp(&b).is_lt(), "{a} before {b}");
            assert_eq!(f(a).total_key() < f(b).total_key(), a.total_cmp(&b).is_lt());
            if !a.is_nan() && !b.is_nan() {
                assert_eq!(f(a).key() < f(b).key(), a < b);
                assert!(g(f(a).max(f(b))) == a.max(b));
            }
        }
    }
}

#[test]
fn integers_convert_to_the_nearest_float() {
    for n in [0, 1, 2, 3, 10, 1 << 52, (1 << 53) + 1, (1 << 53) + 3, u64::MAX, u64::MAX - 1024, u64::MAX - 1025, 123_456_789_012_345_678] {
        assert_eq!(g(Float::from_u64(n)), n as f64, "{n}");
    }
    for i in [0, -1, 7, -7, i64::MAX, i64::MIN, -((1 << 53) + 1), (1 << 60) + 127, (1 << 60) + 129] {
        assert_eq!(g(Float::from_i64(i)), i as f64, "{i}");
    }
}

#[test]
fn floats_truncate_to_integers() {
    for value in [0.0, -0.0, 0.9, -0.9, 1.0, 2.5, -2.5, 1e15, -1e18, 9.3e18, -9.3e18, f64::NAN, f64::INFINITY, f64::NEG_INFINITY, 5e-324] {
        assert_eq!(f(value).to_i64(), value as i64, "{value}");
    }
}

#[test]
fn numbers_are_written_and_read() {
    for n in [0, 7, 10, 4_294_967_296, u64::MAX] {
        assert_eq!(decimal_text(n), n.to_string());
        assert_eq!(parse_u64(&n.to_string(), 10), Some(n));
        assert_eq!(hex_text(n), format!("{n:016x}"));
        assert_eq!(parse_u64(&format!("{n:x}"), 16), Some(n));
    }
    for i in [0, -1, 42, i64::MIN, i64::MAX] {
        assert_eq!(signed_text(i), i.to_string());
        assert_eq!(parse_i64(&i.to_string()), Some(i));
    }
    for text in ["", "-", "+", "1a", "18446744073709551616", " 1", "--1"] {
        assert_eq!(parse_u64(text, 10), text.parse::<u64>().ok(), "{text}");
        assert_eq!(parse_i64(text), text.parse::<i64>().ok(), "{text}");
    }
    assert_eq!(parse_i64("+5"), "+5".parse::<i64>().ok());
    assert_eq!(parse_u32("4294967295"), Some(u32::MAX));
    assert_eq!(parse_u32("4294967296"), None);
}

#[test]
fn texts_are_taken_apart() {
    assert!(has_prefix("s:abc", "s:") && !has_prefix("s", "s:"));
    assert_eq!(text_from("s:äbc", 2), "äbc");
    assert_eq!(joined("ab", "cd"), "abcd");
    assert!(texts_equal("a", "a") && !texts_equal("a", "b"));
    assert_eq!(char_codes("aä"), vec![97, 228]);
}

#[test]
fn keys_are_sorted_stably() {
    let keys = vec![vec![2, 1], vec![1, 9], vec![2, 0], vec![1, 9], vec![1]];
    assert_eq!(sorted_positions(&keys), vec![4, 1, 3, 2, 0]);
    assert_eq!(sorted_positions(&Vec::new()), Vec::<usize>::new());
}

#[test]
fn integer_ranges_end_on_a_step() {
    assert!(Distribution::new_int(-5, 10, 2, false).same(&Distribution::Int { low: -5, high: 9, step: 2, log: false }));
    let whole = Distribution::new_int(i64::MIN, i64::MAX, 1, false);
    assert!(whole.same(&Distribution::Int { low: i64::MIN, high: i64::MAX, step: 1, log: false }));
    assert!(whole.adjusted_to(f(0.0)).same(&whole));
}

#[test]
fn distributions_know_their_values() {
    let float = Distribution::Float { low: f(-1.0), high: f(1.0), step: None, log: false };
    assert!(float.contains(f(-1.0)) && float.contains(f(1.0)) && !float.contains(f(1.5)) && !float.contains(f(f64::NAN)));
    let category = Distribution::new_categorical(3);
    assert!(category.contains(f(0.0)) && category.contains(f(2.0)) && !category.contains(f(3.0)) && !category.contains(f(-1.0)));
    let int = Distribution::new_int(2, 6, 2, false);
    assert!(int.contains(f(3.0)) && !int.contains(f(7.0)));
    assert!(float.check_compatibility(&float).is_ok());
    for other in [int, category, Distribution::Float { low: f(1.0), high: f(2.0), step: None, log: true }] {
        assert_eq!(float.check_compatibility(&other).err().map(|e| e.kind), Some(ErrorKind::IncompatibleDistribution));
    }
    assert!(Distribution::new_categorical(2).check_compatibility(&category).is_err());
    assert!(int.check_compatibility(&Distribution::new_int(0, 99, 1, false)).is_ok());
}

#[test]
fn single_values_are_known() {
    let five = Distribution::Float { low: f(5.0), high: f(5.0), step: None, log: false };
    assert_eq!(five.get_single_value().map(g), Ok(5.0));
    assert_eq!(Distribution::new_int(3, 4, 2, false).get_single_value().map(g), Ok(3.0));
    assert_eq!(Distribution::new_categorical(1).get_single_value().map(g), Ok(0.0));
    assert!(Distribution::new_categorical(2).get_single_value().is_err());
    assert!(!Distribution::new_int(3, 4, 1, false).is_single());
    let mut sampler = RandomSampler::new();
    assert_eq!(sampler.sample_independent(&five).map(g), Some(5.0));
    assert!(!sampler.support_joint_sampling());
}

#[test]
fn indices_are_kept_in_range() {
    assert_eq!((clamp_index(-3, 5), clamp_index(7, 5), clamp_index(2, 5)), (0, 5, 2));
    let mut sampler = RandomSampler::seed_from_u64(1);
    let drawn: Vec<i64> = (0..60).map(|_| sampler.draw_index(3)).collect();
    assert!((0..=3).all(|i| drawn.contains(&i)) && drawn.iter().all(|i| (0..=3).contains(i)));
}

#[test]
fn an_index_depends_on_the_generator_and_the_bound() {
    let mut sampler = RandomSampler::seed_from_u64(11);
    let mut generator = StdRng::seed_from_u64(11);
    for bound in [0, 1, 7, 1000, i64::MAX, 7] {
        assert_eq!(sampler.draw_index(bound), generator.gen_range(0..=bound));
        assert!(sampler.rng == generator);
    }
}

#[test]
fn a_sampled_value_depends_on_the_generator_and_the_range() {
    let mut sampler = RandomSampler::seed_from_u64(5);
    let mut generator = StdRng::seed_from_u64(5);
    for _ in 0..20 {
        let whole = sampler.sample_independent(&Distribution::new_int(-4, 9, 3, false)).map(g);
        assert_eq!(whole, Some(-4.0 + 3.0 * generator.gen_range(0..=4i64) as f64));
        let choice = sampler.sample_independent(&Distribution::new_categorical(7)).map(g);
        assert_eq!(choice, Some(generator.gen_range(0..7u64) as f64));
        assert!(sampler.rng == generator);
    }
    let reversed = Distribution::Int { low: 3, high: 1, step: 1, log: false };
    assert_eq!(sampler.sample_independent(&reversed).map(g), Some(3.0));
    generator.gen_range(0..=0i64);
    assert!(sampler.rng == generator);
}

#[test]
fn the_generator_stays_where_nothing_is_drawn() {
    let mut sampler = RandomSampler::seed_from_u64(5);
    let generator = StdRng::seed_from_u64(5);
    assert_eq!(sampler.sample_independent(&Distribution::new_int(3, 4, 2, false)).map(g), Some(3.0));
    assert_eq!(sampler.sample_independent(&Distribution::new_categorical(1)).map(g), Some(0.0));
    assert!(sampler.sample_independent(&Distribution::new_int(1, 9, 1, true)).is_none());
    let open = Distribution::Float { low: f(0.0), high: f(1.0), step: None, log: false };
    assert!(sampler.sample_independent(&open).is_none());
    assert!(sampler.rng == generator);
}

#[test]
fn two_positions_depend_on_the_generator_and_the_number() {
    let mut sampler = RandomSampler::seed_from_u64(8);
    let mut generator = StdRng::seed_from_u64(8);
    for n in [2, 3, 10, 50, 3] {
        let positions: Vec<usize> = (0..n).collect();
        let expected: Vec<usize> = positions.choose_multiple(&mut generator, 2).copied().collect();
        assert_eq!(sampler.draw_two(n), (expected[0], expected[1]));
        assert!(sampler.rng == generator);
    }
}
