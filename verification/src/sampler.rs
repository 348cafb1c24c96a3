//! Uniform random sampling.

use rand::rngs::StdRng;
use rand::seq::SliceRandom;
use rand::{Rng, SeedableRng};
use vstd::prelude::*;

use crate::convert::of_int;
use crate::distribution::Distribution;
use crate::float::Float;

verus! {

/// The generator of `rand::rngs::StdRng`.
#[verifier::external_type_specification]
#[verifier::external_body]
pub struct ExStdRng(StdRng);

/// The generator that `StdRng::from_seed` makes of a seed.
pub uninterp spec fn generator_of(seed: Seq<u8>) -> StdRng;

/// `StdRng::from_seed`. The generator depends on the seed alone; what it will draw is not
/// claimed.
#[verifier::external_body]
fn rng_from_seed(seed: [u8; 32]) -> (r: StdRng)
    ensures
        r == generator_of(seed@),
{
    StdRng::from_seed(seed)
}

/// The generator that `StdRng::seed_from_u64` makes of a number.
pub uninterp spec fn generator_of_number(seed: u64) -> StdRng;

/// `StdRng::seed_from_u64`. The generator depends on the number alone; what it will draw
/// is not claimed.
#[verifier::external_body]
fn rng_from_u64(seed: u64) -> (r: StdRng)
    ensures
        r == generator_of_number(seed),
{
    StdRng::seed_from_u64(seed)
}

/// The number that `Rng::gen_range` draws from a generator between 0 and a bound, and the
/// generator after the draw.
pub uninterp spec fn index_drawn(rng: StdRng, max: i64) -> (i64, StdRng);

/// `Rng::gen_range` on an inclusive range from 0. The drawn number lies in the range. It and
/// the generator left behind depend on the generator and the bound alone; which number it
/// is, is not claimed.
#[verifier::external_body]
fn draw_up_to(rng: &mut StdRng, max: i64) -> (r: i64)
    requires
        0 <= max,
    ensures
        0 <= r <= max,
        (r, *final(rng)) == index_drawn(*old(rng), max),
{
    rng.gen_range(0..=max)
}

/// The number that `Rng::gen_range` draws from a generator below a bound, and the generator
/// after the draw.
pub uninterp spec fn choice_drawn(rng: StdRng, n: u64) -> (u64, StdRng);

/// `Rng::gen_range` on a half-open range from 0. The drawn number lies in the range. It and
/// the generator left behind depend on the generator and the bound alone; which number it
/// is, is not claimed.
#[verifier::external_body]
fn draw_below(rng: &mut StdRng, n: u64) -> (r: u64)
    requires
        n > 0,
    ensures
        r < n,
        (r, *final(rng)) == choice_drawn(*old(rng), n),
{
    rng.gen_range(0..n)
}

/// The 64-bit number that `Rng::gen` draws from a generator, and the generator after the
/// draw.
pub uninterp spec fn number_drawn(rng: StdRng) -> (u64, StdRng);

/// `Rng::gen` on 64-bit numbers. The drawn number and the generator left behind depend on
/// the generator alone; which number it is, is not claimed.
#[verifier::external_body]
fn draw_u64(rng: &mut StdRng) -> (r: u64)
    ensures
        (r, *final(rng)) == number_drawn(*old(rng)),
{
    rng.gen::<u64>()
}

/// The two entries that `SliceRandom::choose_multiple` chooses from a list, and the generator
/// after the choice.
pub uninterp spec fn two_drawn(rng: StdRng, positions: Seq<usize>) -> ((usize, usize), StdRng);

/// `SliceRandom::choose_multiple` on a list without repetitions, for two of its entries. They
/// are different entries of the list. They and the generator left behind depend on the
/// generator and the list alone; which entries they are, is not claimed.
#[verifier::external_body]
fn draw_two_of(rng: &mut StdRng, positions: &Vec<usize>) -> (r: (usize, usize))
    requires
        positions@.len() >= 2,
        positions@.no_duplicates(),
    ensures
        positions@.contains(r.0),
        positions@.contains(r.1),
        r.0 != r.1,
        (r, *final(rng)) == two_drawn(*old(rng), positions@),
{
    let mut two = positions.choose_multiple(rng, 2).copied();
    (two.next().unwrap(), two.next().unwrap())
}

/// Uniform random sampler.
///
/// It draws values independently from each parameter distribution and does not sample
/// jointly.
pub struct RandomSampler {
    pub rng: StdRng,
}

/// The generator that a sampler starts from: the one of its seed, or the one of the
/// all-zero seed where none is given.
pub open spec fn seeded(seed: Option<u64>) -> StdRng {
    match seed {
        Some(number) => generator_of_number(number),
        None => generator_of(Seq::new(32, |i: int| 0u8)),
    }
}

/// The values that a draw from a distribution can give.
pub open spec fn drawn_from(distribution: Distribution, value: Float) -> bool {
    match distribution {
        Distribution::Int { low, high, step, .. } => exists|i: int| 0 <= i && (i == 0 || low + i * step <= high)
            && value == of_int(#[trigger] stepped(low as int, step as int, i)),
        Distribution::Categorical { cardinality } => exists|i: int| 0 <= i < cardinality && value == #[trigger] of_int(i),
        _ => true,
    }
}

/// The number `i` steps above `low`.
pub open spec fn stepped(low: int, step: int, i: int) -> int {
    low + i * step
}

/// The number of whole steps from `low` up to `high`.
pub open spec fn last_step(low: int, high: int, step: int) -> int {
    if high < low {
        0
    } else {
        (high - low) / step
    }
}

/// The positions below `n`, in ascending order.
pub open spec fn positions_below(n: usize) -> Seq<usize> {
    Seq::new(n as nat, |i: int| i as usize)
}

/// What sampling one parameter gives, with the generator after it. `None` stands for a
/// value that is drawn outside.
pub open spec fn sampled_alone(rng: StdRng, distribution: Distribution) -> (Option<Float>, StdRng) {
    if distribution@.single() {
        let value = match distribution {
            Distribution::Float { low, .. } => low,
            Distribution::Int { low, .. } => of_int(low as int),
            Distribution::Categorical { .. } => of_int(0),
        };
        (Some(value), rng)
    } else {
        match distribution {
            Distribution::Float { .. } => (None, rng),
            Distribution::Int { low, high, step, log } => if log {
                (None, rng)
            } else {
                let drawn = index_drawn(rng, last_step(low as int, high as int, step as int) as i64);
                (Some(of_int(stepped(low as int, step as int, drawn.0 as int))), drawn.1)
            },
            Distribution::Categorical { cardinality } => {
                let drawn = choice_drawn(rng, cardinality as u64);
                (Some(of_int(drawn.0 as int)), drawn.1)
            }
        }
    }
}

impl RandomSampler {
    /// Creates a sampler with a deterministic default seed.
    pub fn new() -> (r: RandomSampler)
        ensures
            r.rng == generator_of(Seq::new(32, |i: int| 0u8)),
    {
        let seed: [u8; 32] = [0u8; 32];
        assert(seed@ =~= Seq::new(32, |i: int| 0u8));
        RandomSampler { rng: rng_from_seed(seed) }
    }

    /// Creates a sampler seeded from a user-specified 64-bit seed.
    pub fn seed_from_u64(seed: u64) -> (r: RandomSampler)
        ensures
            r.rng == generator_of_number(seed),
    {
        RandomSampler { rng: rng_from_u64(seed) }
    }

    /// Whether joint sampling is supported.
    pub fn support_joint_sampling(&self) -> (r: bool)
        ensures
            !r,
    {
        false
    }

    /// Draws a whole number of steps, from 0 to `max_index`, and moves the generator on.
    pub fn draw_index(&mut self, max_index: i64) -> (r: i64)
        requires
            max_index >= 0,
        ensures
            0 <= r <= max_index,
            (r, final(self).rng) == index_drawn(old(self).rng, max_index),
    {
        draw_up_to(&mut self.rng, max_index)
    }

    /// Draws a seed for another sampler, and moves the generator on.
    pub(crate) fn draw_seed(&mut self) -> (r: u64)
        ensures
            (r, final(self).rng) == number_drawn(old(self).rng),
    {
        draw_u64(&mut self.rng)
    }

    /// Draws two different positions below `n`, and moves the generator on.
    pub fn draw_two(&mut self, n: usize) -> (r: (usize, usize))
        requires
            n >= 2,
        ensures
            r.0 < n,
            r.1 < n,
            r.0 != r.1,
            (r, final(self).rng) == two_drawn(old(self).rng, positions_below(n)),
    {
        let mut positions: Vec<usize> = Vec::new();
        let mut i: usize = 0;
        while i < n
            invariant
                i <= n,
                positions@.len() == i,
                forall|k: int| 0 <= k < i ==> #[trigger] positions@[k] == k,
            decreases n - i,
        {
            positions.push(i);
            i = i + 1;
        }
        assert(positions@ =~= positions_below(n));
        draw_two_of(&mut self.rng, &positions)
    }

    /// Samples a parameter whose values are whole steps or choices, or the only possible
    /// value. Where nothing is drawn, the generator stays.
    ///
    /// Returns `None` where the value is a number of a continuous range or on a
    /// logarithmic scale, and is to be drawn outside.
    pub fn sample_independent(&mut self, distribution: &Distribution) -> (r: Option<Float>)
        requires
            distribution@.single() || match *distribution {
                Distribution::Int { low, high, step, log } => log || (step > 0 && i64::MIN <= high - low <= i64::MAX),
                Distribution::Categorical { cardinality } => cardinality > 0,
                _ => true,
            },
        ensures
            (r, final(self).rng) == sampled_alone(old(self).rng, *distribution),
            r is Some ==> drawn_from(*distribution, r->Some_0),
    {
        match distribution.get_single_value() {
            Ok(value) => {
                proof {
                    match *distribution {
                        Distribution::Int { low, step, .. } => {
                            assert(stepped(low as int, step as int, 0) == low);
                        }
                        Distribution::Categorical { .. } => {
                            assert(value == of_int(0));
                        }
                        _ => {}
                    }
                }
                return Some(value);
            }
            Err(_) => {}
        }
        match *distribution {
            Distribution::Float { .. } => None,
            Distribution::Int { low, high, step, log } => if log {
                None
            } else {
                let max_index: i64 = if high < low {
                    0
                } else {
                    (high - low) / step
                };
                proof {
                    assert(max_index >= 0 && (high >= low ==> max_index * step <= high - low)) by (nonlinear_arith)
                        requires max_index == (if high < low { 0 } else { (high - low) / (step as int) }), step > 0;
                    assert(max_index == last_step(low as int, high as int, step as int));
                }
                let index: i64 = draw_up_to(&mut self.rng, max_index);
                proof {
                    assert(0 <= index * step <= max_index * step) by (nonlinear_arith)
                        requires 0 <= index <= max_index, step > 0;
                    assert(stepped(low as int, step as int, index as int) == low + index * step);
                }
                let value: i64 = low + index * step;
                Some(Float::from_i64(value))
            },
            Distribution::Categorical { cardinality } => {
                let index: u64 = draw_below(&mut self.rng, cardinality as u64);
                assert(of_int(index as int) == crate::convert::of_nat(index as nat));
                Some(Float::from_u64(index))
            }
        }
    }
}

/// A number of steps kept between 0 and `max_index`.
pub fn clamp_index(index: i64, max_index: i64) -> (r: i64)
    ensures
        r == if index < 0 && max_index >= 0 {
            0
        } else if index > max_index || index < 0 {
            max_index
        } else {
            index
        },
{
    let raised: i64 = if index < 0 {
        0
    } else {
        index
    };
    if raised > max_index {
        max_index
    } else {
        raised
    }
}

/// The last step is the largest number of steps from the lower bound that stays in the range.
pub proof fn law_last_step_reaches_the_end(low: int, high: int, step: int)
    requires
        low <= high,
        step > 0,
    ensures
        low + last_step(low, high, step) * step <= high < low + (last_step(low, high, step) + 1) * step,
        last_step(low, high, step) >= 0,
{
    let q = last_step(low, high, step);
    assert(0 <= q && q * step <= high - low < (q + 1) * step) by (nonlinear_arith)
        requires
            q == (high - low) / step,
            low <= high,
            step > 0,
    ;
}

/// An integer range is sampled by drawing a number of steps from 0 to the last one that stays in
/// the range, and going that many steps up from the lower bound.
pub proof fn law_integers_are_drawn_by_steps(rng: StdRng, low: i64, high: i64, step: i64, last: i64)
    requires
        low < high,
        0 < step <= high - low,
        0 <= last,
        low + last * step <= high < low + (last + 1) * step,
    ensures
        sampled_alone(rng, Distribution::Int { low, high, step, log: false }) == (
            Some(of_int(low + index_drawn(rng, last).0 * step)),
            index_drawn(rng, last).1,
        ),
{
    law_last_step_reaches_the_end(low as int, high as int, step as int);
    let q = last_step(low as int, high as int, step as int);
    assert(q == last) by (nonlinear_arith)
        requires
            q * step <= high - low < (q + 1) * step,
            last * step <= high - low < (last + 1) * step,
            step > 0,
    ;
}

/// A categorical parameter with several choices is sampled by drawing one of their positions.
pub proof fn law_choices_are_drawn_by_position(rng: StdRng, cardinality: usize)
    requires
        cardinality > 1,
    ensures
        sampled_alone(rng, Distribution::Categorical { cardinality }) == (
            Some(of_int(choice_drawn(rng, cardinality as u64).0 as int)),
            choice_drawn(rng, cardinality as u64).1,
        ),
{
}

/// Where only one value is possible it is taken, and the generator stays.
pub proof fn law_single_values_are_not_drawn(rng: StdRng, low: Float, high: Float, log: bool, i: i64, j: i64, step: i64)
    requires
        low.rank() == high.rank(),
        i <= j < i + step,
    ensures
        sampled_alone(rng, Distribution::Float { low, high, step: None, log }) == (Some(low), rng),
        sampled_alone(rng, Distribution::Int { low: i, high: j, step, log }) == (Some(of_int(i as int)), rng),
        sampled_alone(rng, Distribution::Categorical { cardinality: 1 }) == (Some(of_int(0)), rng),
{
}

/// What is drawn from an integer range is an integer of it, a whole number of steps above the
/// lower bound.
pub proof fn law_draws_stay_on_steps(low: i64, high: i64, step: i64, log: bool, value: Float) -> (j: int)
    requires
        drawn_from(Distribution::Int { low, high, step, log }, value),
        low <= high,
        step > 0,
    ensures
        value == of_int(j),
        low <= j <= high,
        (j - low) % (step as int) == 0,
{
    let i = choose|i: int| 0 <= i && (i == 0 || low + i * step <= high) && value == of_int(#[trigger] stepped(low as int, step as int, i));
    assert(i * step >= 0) by (nonlinear_arith)
        requires
            i >= 0,
            step > 0,
    ;
    if i == 0 {
        assert(0 * (step as int) == 0);
    }
    vstd::arithmetic::div_mod::lemma_mod_multiples_basic(i, step as int);
    stepped(low as int, step as int, i)
}

} // verus!
