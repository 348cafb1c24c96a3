//! Parameter distributions.

use vstd::prelude::*;

use crate::convert::{full, law_conversion_keeps_the_order, of_int, of_nat};
use crate::error::{fails, Error, ErrorKind, Result};
use crate::float::Float;
use crate::key_map::{Duplicate, Same};

verus! {

/// The values that a parameter can take.
///
/// A categorical parameter is an index below its cardinality; the labels of the choices
/// are kept with the study.
#[derive(Clone, Copy, Debug)]
#[allow(inconsistent_fields)]
pub enum Distribution {
    Float { low: Float, high: Float, step: Option<Float>, log: bool },
    Int { low: i64, high: i64, step: i64, log: bool },
    Categorical { cardinality: usize },
}

/// A distribution with its bounds as they compare.
#[allow(inconsistent_fields)]
pub enum Space {
    Float { low: int, high: int, step: Option<int>, log: bool },
    Int { low: int, high: int, step: int, log: bool },
    Categorical { cardinality: nat },
}

impl View for Distribution {
    type V = Space;

    open spec fn view(&self) -> Space {
        match *self {
            Distribution::Float { low, high, step, log } => Space::Float {
                low: low.rank(),
                high: high.rank(),
                step: match step {
                    Some(s) => Some(s.rank()),
                    None => None,
                },
                log,
            },
            Distribution::Int { low, high, step, log } => Space::Int { low: low as int, high: high as int, step: step as int, log },
            Distribution::Categorical { cardinality } => Space::Categorical { cardinality: cardinality as nat },
        }
    }
}

impl Duplicate for Distribution {
    fn duplicate(&self) -> (r: Distribution) {
        *self
    }
}

impl Same for Distribution {
    fn same(&self, other: &Distribution) -> (r: bool) {
        match (*self, *other) {
            (Distribution::Float { low: a, high: b, step: s, log: l }, Distribution::Float { low: c, high: d, step: t, log: m }) => {
                let steps = match (s, t) {
                    (None, None) => true,
                    (Some(x), Some(y)) => x.key() == y.key(),
                    _ => false,
                };
                a.key() == c.key() && b.key() == d.key() && steps && l == m
            }
            (Distribution::Int { low: a, high: b, step: s, log: l }, Distribution::Int { low: c, high: d, step: t, log: m }) =>
                a == c && b == d && s == t && l == m,
            (Distribution::Categorical { cardinality: a }, Distribution::Categorical { cardinality: b }) => a == b,
            _ => false,
        }
    }
}

impl Space {
    /// Whether the value lies between the bounds.
    pub open spec fn holds(self, value: Float) -> bool {
        !value.nan() && match self {
            Space::Float { low, high, .. } => low <= value.rank() <= high,
            Space::Int { low, high, .. } => of_int(low).rank() <= value.rank() <= of_int(high).rank(),
            Space::Categorical { cardinality } => 0 <= value.rank() < of_nat(cardinality).rank(),
        }
    }

    /// Whether two distributions can be used under one name: of one kind, on one scale,
    /// and with one number of choices.
    pub open spec fn compatible(self, other: Space) -> bool {
        match (self, other) {
            (Space::Float { log: a, .. }, Space::Float { log: b, .. }) => a == b,
            (Space::Int { log: a, .. }, Space::Int { log: b, .. }) => a == b,
            (Space::Categorical { cardinality: a }, Space::Categorical { cardinality: b }) => a == b,
            _ => false,
        }
    }

    /// Only one value is possible.
    pub open spec fn single(self) -> bool {
        match self {
            Space::Float { low, high, .. } => low == high,
            Space::Int { low, high, step, .. } => low == high || 0 <= high - low < step,
            Space::Categorical { cardinality } => cardinality == 1,
        }
    }

    /// A float range with a step.
    pub open spec fn stepped(self) -> bool {
        self matches Space::Float { step, .. } && step is Some
    }

    /// The upper bound moved down to a whole number of steps. That of a float range with a
    /// step moves to `float_high`.
    pub open spec fn adjusted_to(self, float_high: int) -> Space {
        match self {
            Space::Int { low, high, step, log } => Space::Int { low, high: low + (high - low) / step * step, step, log },
            Space::Float { low, high, step: Some(step), log } => Space::Float { low, high: float_high, step: Some(step), log },
            _ => self,
        }
    }

    /// An integer distribution has ordered bounds and a positive step.
    pub open spec fn wf(self) -> bool {
        match self {
            Space::Int { low, high, step, .. } => low <= high && step > 0,
            _ => true,
        }
    }
}

/// The last number up to `high` that is a whole number of steps above `low`.
fn last_value(low: i64, high: i64, step: i64) -> (r: i64)
    requires
        low <= high,
        step > 0,
    ensures
        r == low + (high - low) / (step as int) * step,
{
    let width: i128 = high as i128 - low as i128;
    let steps: i128 = width / step as i128;
    proof {
        assert(0 <= steps * step <= width) by (nonlinear_arith)
            requires steps as int == width as int / step as int, width >= 0, step > 0;
    }
    let top: i128 = low as i128 + steps * step as i128;
    top as i64
}

impl Distribution {
    pub fn new_int(low: i64, high: i64, step: i64, log: bool) -> (r: Distribution)
        requires
            low <= high,
            step > 0,
        ensures
            r@ == (Space::Int { low: low as int, high: low + (high - low) / (step as int) * step, step: step as int, log }),
    {
        Distribution::Int { low, high: last_value(low, high, step), step, log }
    }

    pub fn new_categorical(cardinality: usize) -> (r: Distribution)
        ensures
            r@ == (Space::Categorical { cardinality: cardinality as nat }),
    {
        Distribution::Categorical { cardinality }
    }

    /// The distribution with its upper bound on a whole step. Where that is for a float range
    /// with a step, is computed outside and handed in as `float_high`; other distributions
    /// take no notice of it.
    pub fn adjusted_to(&self, float_high: Float) -> (r: Distribution)
        requires
            self@.wf(),
        ensures
            r@ == self@.adjusted_to(float_high.rank()),
            self is Float && self@.stepped() ==> r is Float && r->Float_high == float_high,
    {
        match *self {
            Distribution::Int { low, high, step, log } => Distribution::Int { low, high: last_value(low, high, step), step, log },
            Distribution::Float { low, high: _, step: Some(step), log } => Distribution::Float {
                low,
                high: float_high,
                step: Some(step),
                log,
            },
            d => d,
        }
    }

    /// Whether the value lies between the bounds.
    pub fn contains(&self, value: Float) -> (r: bool)
        ensures
            r == self@.holds(value),
    {
        if value.is_nan() {
            return false;
        }
        match *self {
            Distribution::Float { low, high, .. } => low.key() <= value.key() && value.key() <= high.key(),
            Distribution::Int { low, high, .. } => Float::from_i64(low).key() <= value.key()
                && value.key() <= Float::from_i64(high).key(),
            Distribution::Categorical { cardinality } => 0 <= value.key()
                && value.key() < Float::from_u64(cardinality as u64).key(),
        }
    }

    /// Fails where the distribution cannot be used under the same name as another.
    pub fn check_compatibility(&self, other: &Distribution) -> (r: Result<()>)
        ensures
            r is Ok == self@.compatible(other@),
            r is Err ==> fails(r, ErrorKind::IncompatibleDistribution),
    {
        let ok = match (*self, *other) {
            (Distribution::Float { log: a, .. }, Distribution::Float { log: b, .. }) => a == b,
            (Distribution::Int { log: a, .. }, Distribution::Int { log: b, .. }) => a == b,
            (Distribution::Categorical { cardinality: a }, Distribution::Categorical { cardinality: b }) => a == b,
            _ => false,
        };
        if ok {
            Ok(())
        } else {
            Err(Error::new(ErrorKind::IncompatibleDistribution))
        }
    }

    /// Whether only one value is possible.
    pub fn is_single(&self) -> (r: bool)
        ensures
            r == self@.single(),
    {
        match *self {
            Distribution::Float { low, high, .. } => low.key() == high.key(),
            Distribution::Int { low, high, step, .. } => low == high || (low <= high && (high as i128 - low as i128) < step as i128),
            Distribution::Categorical { cardinality } => cardinality == 1,
        }
    }

    /// The only possible value.
    pub fn get_single_value(&self) -> (r: Result<Float>)
        ensures
            r is Ok == self@.single(),
            r is Err ==> fails(r, ErrorKind::Unexpected),
            r is Ok ==> match *self {
                Distribution::Float { low, .. } => r->Ok_0 == low,
                Distribution::Int { low, .. } => r->Ok_0 == of_int(low as int),
                Distribution::Categorical { .. } => r->Ok_0.bits == 0,
            },
    {
        if !self.is_single() {
            return Err(Error::new(ErrorKind::Unexpected));
        }
        match *self {
            Distribution::Float { low, .. } => Ok(low),
            Distribution::Int { low, .. } => Ok(Float::from_i64(low)),
            Distribution::Categorical { .. } => Ok(Float { bits: 0 }),
        }
    }
}

/// Adjusting twice is adjusting once.
pub proof fn law_adjusting_is_idempotent(space: Space, float_high: int)
    requires
        space.wf(),
    ensures
        space.adjusted_to(float_high).wf(),
        space.adjusted_to(float_high).adjusted_to(float_high) == space.adjusted_to(float_high),
{
    match space {
        Space::Int { low, high, step, .. } => {
            let k = (high - low) / step;
            assert(0 <= k * step) by (nonlinear_arith)
                requires k == (high - low) / step, high >= low, step > 0;
            vstd::arithmetic::div_mod::lemma_div_by_multiple(k, step);
        }
        _ => {}
    }
}

/// An integer range holds every integer between its bounds, and none outside of them as far as
/// integers are converted without loss.
pub proof fn law_integer_ranges_hold_what_is_between(low: i64, high: i64, step: int, log: bool, i: i64)
    ensures
        low <= i <= high ==> (Space::Int { low: low as int, high: high as int, step, log }).holds(of_int(i as int)),
        (i < low || i > high) && -full() < i < full() && -full() < low < full() && -full() < high < full() ==> !(Space::Int {
            low: low as int,
            high: high as int,
            step,
            log,
        }).holds(of_int(i as int)),
{
    if low <= i {
        law_conversion_keeps_the_order(low as int, i as int);
    } else {
        law_conversion_keeps_the_order(i as int, low as int);
    }
    if i <= high {
        law_conversion_keeps_the_order(i as int, high as int);
    } else {
        law_conversion_keeps_the_order(high as int, i as int);
    }
}

/// A categorical distribution holds the positions of its choices, and no other integer.
pub proof fn law_categories_are_counted_from_zero(cardinality: nat, i: int)
    requires
        cardinality < full(),
        -full() < i < full(),
    ensures
        (Space::Categorical { cardinality }).holds(of_int(i)) <==> 0 <= i < cardinality,
{
    let n = cardinality as int;
    assert(of_int(n) == of_nat(cardinality));
    if i <= 0 {
        law_conversion_keeps_the_order(i, 0);
    } else {
        law_conversion_keeps_the_order(0, i);
    }
    if i <= n {
        law_conversion_keeps_the_order(i, n);
    } else {
        law_conversion_keeps_the_order(n, i);
    }
}

/// A float range holds every number that is neither below its lower bound nor above its upper
/// one, and no NaN.
pub proof fn law_float_ranges_hold_what_is_between(distribution: Distribution, value: Float)
    requires
        distribution is Float,
        !distribution->Float_low.nan(),
        !distribution->Float_high.nan(),
    ensures
        distribution@.holds(value) <==> !value.nan() && !value.below(distribution->Float_low) && !distribution->Float_high.below(value),
{
}

/// The upper bound of an integer range moves down to the last whole step and nothing else
/// changes; a range without a step stays.
pub proof fn law_adjusted_bound_is_the_last_step(low: int, high: int, step: int, log: bool, float_high: int)
    requires
        low <= high,
        step > 0,
    ensures
        ({
            let after = (Space::Int { low, high, step, log }).adjusted_to(float_high);
            &&& after is Int && after->Int_low == low && after->Int_step == step && after->Int_log == log
            &&& low <= after->Int_high <= high < after->Int_high + step
            &&& (after->Int_high - low) % step == 0
        }),
        (Space::Float { low, high, step: None, log }).adjusted_to(float_high) == (Space::Float { low, high, step: None, log }),
{
    let q = (high - low) / step;
    assert(0 <= q * step <= high - low < q * step + step) by (nonlinear_arith)
        requires
            q == (high - low) / step,
            low <= high,
            step > 0,
    ;
    vstd::arithmetic::div_mod::lemma_mod_multiples_basic(q, step);
}

/// Distributions of different kinds do not go under one name. Of one kind, the scale and the
/// number of choices have to agree; bounds and steps do not matter.
pub proof fn law_compatible_distributions_share_kind_and_scale(a: Space, b: Space)
    ensures
        a.compatible(a),
        a.compatible(b) == b.compatible(a),
        a.compatible(b) ==> (a is Float == b is Float) && (a is Int == b is Int),
        a is Float && b is Float ==> a.compatible(b) == (a->Float_log == b->Float_log),
        a is Int && b is Int ==> a.compatible(b) == (a->Int_log == b->Int_log),
        a is Categorical && b is Categorical ==> a.compatible(b) == (a->cardinality == b->cardinality),
{
}

/// An integer range has a single value where one step from the lower bound leaves it.
pub proof fn law_single_ranges_have_one_step(low: int, high: int, step: int, log: bool)
    requires
        low <= high,
        step > 0,
    ensures
        (Space::Int { low, high, step, log }).single() <==> low + step > high,
        (Space::Float { low, high, step: None, log }).single() <==> low == high,
{
}

} // verus!
