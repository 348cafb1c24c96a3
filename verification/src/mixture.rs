//! Mixtures of product distributions.
//!
//! A mixture has one kernel for each observation, and a kernel is a product over the
//! parameters. Densities and random numbers are computed outside; what a parameter can be,
//! where a density vanishes and how a random number becomes a value is decided here.

use vstd::prelude::*;

use crate::convert::{full, law_conversion_is_nearest, law_small_integer_reads_back, of_int};
use crate::float::Float;
use crate::importance::chosen;
use crate::key_map::KeyMap;
use crate::tpe::{ascending, sorted_names};
use crate::trial::whole;

verus! {

/// The kernels of one parameter. They differ in their centre and width alone.
#[derive(Clone, Copy, Debug)]
#[allow(inconsistent_fields)]
pub enum Kernels {
    /// Normal, truncated to a range.
    TruncNorm { low: Float, high: Float },
    /// Normal in the logarithm, truncated to a range.
    TruncLogNorm { low: Float, high: Float },
    /// Normal, truncated and rounded to a step.
    DiscreteTruncNorm { low: Float, high: Float, step: Float },
    /// Normal in the logarithm, truncated and rounded to a step.
    DiscreteTruncLogNorm { low: Float, high: Float, step: Float },
    Categorical { cardinality: usize },
}

impl View for Kernels {
    type V = Kernels;

    open spec fn view(&self) -> Kernels {
        *self
    }
}

/// Greater than zero, or not a number.
pub open spec fn positive_or_nan(value: Float) -> bool {
    value.nan() || value.rank() > 0
}

/// Neither below the one bound nor above the other.
pub open spec fn not_outside(value: Float, low: Float, high: Float) -> bool {
    !value.below(low) && !high.below(value)
}

impl Kernels {
    /// The range is one; on a logarithmic scale it is positive.
    pub open spec fn wf(self) -> bool {
        match self {
            Kernels::TruncNorm { low, high } => !low.nan() && !high.nan() && low.rank() <= high.rank(),
            Kernels::TruncLogNorm { low, high } => !low.nan() && !high.nan() && 0 < low.rank() <= high.rank(),
            Kernels::DiscreteTruncNorm { low, high, .. } => !low.nan() && !high.nan() && low.rank() <= high.rank(),
            Kernels::DiscreteTruncLogNorm { low, high, .. } => !low.nan() && !high.nan() && 0 < low.rank() <= high.rank(),
            Kernels::Categorical { cardinality } => 0 < cardinality < full(),
        }
    }

    /// The density at the value need not vanish.
    pub open spec fn support(self, value: Float) -> bool {
        match self {
            Kernels::TruncNorm { low, high } => not_outside(value, low, high),
            Kernels::TruncLogNorm { low, high } => positive_or_nan(value) && not_outside(value, low, high),
            Kernels::DiscreteTruncNorm { .. } => true,
            Kernels::DiscreteTruncLogNorm { .. } => positive_or_nan(value),
            Kernels::Categorical { cardinality } => chosen(value) < cardinality,
        }
    }

    /// A number that was rounded to the step, moved into the range. Not a number moves to
    /// the lower bound.
    pub open spec fn settled(self, value: Float) -> Float {
        match self {
            Kernels::DiscreteTruncNorm { low, high, .. } => into_range(value, low, high),
            Kernels::DiscreteTruncLogNorm { low, high, .. } => into_range(value, low, high),
            _ => value,
        }
    }

    /// Whether the density at the value need not vanish.
    pub fn supports(&self, value: Float) -> (r: bool)
        ensures
            r == self.support(value),
    {
        match *self {
            Kernels::TruncNorm { low, high } => !value.lt(low) && !high.lt(value),
            Kernels::TruncLogNorm { low, high } => (value.is_nan() || value.key() > 0) && !value.lt(low) && !high.lt(value),
            Kernels::DiscreteTruncNorm { .. } => true,
            Kernels::DiscreteTruncLogNorm { .. } => value.is_nan() || value.key() > 0,
            Kernels::Categorical { cardinality } => {
                let t: i64 = value.to_i64();
                t < 0 && cardinality > 0 || t >= 0 && (t as u64) < cardinality as u64
            }
        }
    }

    /// Moves a number that was rounded to the step into the range.
    pub fn settle(&self, value: Float) -> (r: Float)
        ensures
            r == self.settled(value),
    {
        match *self {
            Kernels::DiscreteTruncNorm { low, high, .. } => move_into_range(value, low, high),
            Kernels::DiscreteTruncLogNorm { low, high, .. } => move_into_range(value, low, high),
            _ => value,
        }
    }
}

/// The number, or the bound that it is beyond.
pub open spec fn into_range(value: Float, low: Float, high: Float) -> Float {
    let v = if value.nan() || value.below(low) {
        low
    } else {
        value
    };
    if high.below(v) {
        high
    } else {
        v
    }
}

fn move_into_range(value: Float, low: Float, high: Float) -> (r: Float)
    ensures
        r == into_range(value, low, high),
{
    let v = value.max(low);
    if high.lt(v) {
        high
    } else {
        v
    }
}

/// A mixture over parameters in ascending order of their names.
pub struct MixtureOfProductDistribution {
    pub param_names: Vec<String>,
    pub distributions: Vec<Kernels>,
}

impl MixtureOfProductDistribution {
    pub open spec fn wf(&self) -> bool {
        &&& self.param_names@.len() == self.distributions@.len()
        &&& ascending(self.param_names@)
    }

    /// Every parameter has a value at which its density need not vanish.
    pub open spec fn support(&self, x: Map<Seq<char>, Float>) -> bool {
        forall|i: int| 0 <= i < self.param_names@.len() ==> x.contains_key((#[trigger] self.param_names@[i])@)
            && self.distributions@[i].support(x[self.param_names@[i]@])
    }

    /// Puts the parameters in order.
    pub fn new(distributions: &KeyMap<String, Kernels>) -> (r: MixtureOfProductDistribution)
        ensures
            r.wf(),
            forall|i: int| 0 <= i < r.param_names@.len() ==> distributions@.contains_key((#[trigger] r.param_names@[i])@)
                && r.distributions@[i] == distributions@[r.param_names@[i]@],
            forall|name: Seq<char>| #[trigger] distributions@.contains_key(name) ==> exists|i: int| 0 <= i < r.param_names@.len()
                && (#[trigger] r.param_names@[i])@ == name,
    {
        let param_names = sorted_names(distributions);
        let mut ordered: Vec<Kernels> = Vec::new();
        let mut i: usize = 0;
        while i < param_names.len()
            invariant
                i <= param_names@.len(),
                forall|k: int| 0 <= k < param_names@.len() ==> distributions@.contains_key((#[trigger] param_names@[k])@),
                ordered@.len() == i,
                forall|k: int| 0 <= k < i ==> #[trigger] ordered@[k] == distributions@[param_names@[k]@],
            decreases param_names@.len() - i,
        {
            assert(distributions@.contains_key(param_names@[i as int]@));
            match distributions.get(&param_names[i]) {
                Some(kernels) => {
                    ordered.push(*kernels);
                }
                None => {}
            }
            i = i + 1;
        }
        let r = MixtureOfProductDistribution { param_names, distributions: ordered };
        assert forall|k: int| 0 <= k < r.param_names@.len() implies distributions@.contains_key((#[trigger] r.param_names@[k])@)
            && r.distributions@[k] == distributions@[r.param_names@[k]@] by {
            assert(ordered@[k] == distributions@[param_names@[k]@]);
        }
        r
    }

    /// The values of a configuration in the order of the parameters; `None` where a
    /// parameter is missing or its density vanishes, and with it that of the mixture.
    pub fn values_in_support(&self, x: &KeyMap<String, Float>) -> (r: Option<Vec<Float>>)
        requires
            self.wf(),
        ensures
            r is Some == self.support(x@),
            r is Some ==> r->Some_0@ == Seq::new(self.param_names@.len(), |i: int| x@[self.param_names@[i]@]),
    {
        let mut values: Vec<Float> = Vec::new();
        let mut i: usize = 0;
        while i < self.param_names.len()
            invariant
                i <= self.param_names@.len(),
                self.param_names@.len() == self.distributions@.len(),
                values@.len() == i,
                forall|k: int| 0 <= k < i ==> x@.contains_key((#[trigger] self.param_names@[k])@)
                    && self.distributions@[k].support(x@[self.param_names@[k]@]) && values@[k] == x@[self.param_names@[k]@],
            decreases self.param_names@.len() - i,
        {
            match x.get(&self.param_names[i]) {
                None => {
                    assert(!x@.contains_key(self.param_names@[i as int]@));
                    return None;
                }
                Some(value) => {
                    if !self.distributions[i].supports(*value) {
                        assert(!self.distributions@[i as int].support(x@[self.param_names@[i as int]@]));
                        return None;
                    }
                    values.push(*value);
                }
            }
            i = i + 1;
        }
        assert(values@ =~= Seq::new(self.param_names@.len(), |i: int| x@[self.param_names@[i]@]));
        Some(values)
    }
}

/// At most the other number.
pub open spec fn at_most(a: Float, b: Float) -> bool {
    a.below(b) || a.same(b)
}

/// The category that a random number falls on: the first one whose cumulative weight the
/// number does not exceed, or else the last one.
pub fn pick_category(cumulative: &Vec<Float>, u: Float) -> (r: usize)
    requires
        cumulative@.len() > 0,
    ensures
        r < cumulative@.len(),
        forall|k: int| 0 <= k < r ==> !at_most(u, #[trigger] cumulative@[k]),
        at_most(u, cumulative@[r as int]) || r == cumulative@.len() - 1,
{
    let mut i: usize = 0;
    while i < cumulative.len() - 1
        invariant
            i < cumulative@.len(),
            forall|k: int| 0 <= k < i ==> !at_most(u, #[trigger] cumulative@[k]),
        decreases cumulative@.len() - i,
    {
        if u.lt(cumulative[i]) || u.num_eq(cumulative[i]) {
            return i;
        }
        i = i + 1;
    }
    i
}

/// Greater than negative infinity.
pub open spec fn above_nothing(value: Float) -> bool {
    !value.nan() && value.bits != 0xfff0_0000_0000_0000
}

/// The largest of the kernels' log densities; `None` where all of them vanish, and with
/// them the density of the mixture. What is not a number is passed over.
pub fn peak(log_densities: &Vec<Float>) -> (r: Option<Float>)
    ensures
        r is Some == exists|k: int| 0 <= k < log_densities@.len() && above_nothing(#[trigger] log_densities@[k]),
        r is Some ==> {
            &&& above_nothing(r->Some_0)
            &&& exists|k: int| 0 <= k < log_densities@.len() && #[trigger] log_densities@[k] == r->Some_0
            &&& forall|k: int| 0 <= k < log_densities@.len() ==> !r->Some_0.below(#[trigger] log_densities@[k])
        },
{
    let mut best: Option<Float> = None;
    let mut i: usize = 0;
    while i < log_densities.len()
        invariant
            i <= log_densities@.len(),
            best is Some == exists|k: int| 0 <= k < i && above_nothing(#[trigger] log_densities@[k]),
            best is Some ==> {
                &&& above_nothing(best->Some_0)
                &&& exists|k: int| 0 <= k < i && #[trigger] log_densities@[k] == best->Some_0
                &&& forall|k: int| 0 <= k < i ==> !best->Some_0.below(#[trigger] log_densities@[k])
            },
        decreases log_densities@.len() - i,
    {
        let value: Float = log_densities[i];
        if !value.is_nan() && value.bits != 0xfff0_0000_0000_0000 {
            best = match best {
                None => Some(value),
                Some(b) => {
                    if b.lt(value) {
                        Some(value)
                    } else {
                        Some(b)
                    }
                }
            };
        }
        i = i + 1;
    }
    best
}

/// Whatever number was drawn and rounded to the step, the value that it becomes lies in the
/// range, and the density there need not vanish.
pub proof fn law_rounded_draws_are_supported(kernels: Kernels, drawn: Float)
    requires
        kernels.wf(),
        kernels is DiscreteTruncNorm || kernels is DiscreteTruncLogNorm,
    ensures
        kernels.support(kernels.settled(drawn)),
        kernels matches Kernels::DiscreteTruncNorm { low, high, .. } ==> low.rank() <= kernels.settled(drawn).rank() <= high.rank(),
        kernels matches Kernels::DiscreteTruncLogNorm { low, high, .. } ==> low.rank() <= kernels.settled(drawn).rank() <= high.rank(),
{
}

/// A category that was picked is one whose density need not vanish.
pub proof fn law_picked_categories_are_supported(cardinality: usize, picked: nat)
    requires
        (Kernels::Categorical { cardinality }).wf(),
        picked < cardinality,
    ensures
        (Kernels::Categorical { cardinality }).support(of_int(picked as int)),
{
    law_small_integer_reads_back(picked as int);
    law_conversion_is_nearest(picked);
    assert(whole(of_int(picked as int)) == picked);
}

/// A number is moved into a range by the shortest way: one that lies in it stays, one below moves
/// to the lower bound and one above to the upper bound. What is not a number moves to the lower
/// bound.
pub proof fn law_numbers_move_to_the_nearest_bound(value: Float, low: Float, high: Float)
    requires
        !low.nan(),
        !high.nan(),
        !high.below(low),
    ensures
        !value.nan() && !value.below(low) && !high.below(value) ==> into_range(value, low, high) == value,
        value.below(low) || value.nan() ==> into_range(value, low, high) == low,
        high.below(value) ==> into_range(value, low, high) == high,
{
}

/// A rounded draw is moved into the range of its kernels; a continuous draw and a picked category
/// stay.
pub proof fn law_only_rounded_draws_move(kernels: Kernels, value: Float)
    requires
        kernels.wf(),
        !value.nan(),
    ensures
        kernels is TruncNorm || kernels is TruncLogNorm || kernels is Categorical ==> kernels.settled(value) == value,
        kernels matches Kernels::DiscreteTruncNorm { low, high, .. } ==> (low.rank() <= value.rank() <= high.rank() ==> kernels.settled(value) == value),
        kernels matches Kernels::DiscreteTruncLogNorm { low, high, .. } ==> (low.rank() <= value.rank() <= high.rank() ==> kernels.settled(value)
            == value),
{
}

/// The density need not vanish on the range of continuous kernels, and vanishes outside of it; on
/// a logarithmic scale it vanishes at zero and below. Categories count from 0.
pub proof fn law_density_is_on_the_range(kernels: Kernels, value: Float, c: int)
    requires
        kernels.wf(),
        !value.nan(),
        0 <= c < full(),
    ensures
        kernels matches Kernels::TruncNorm { low, high } ==> kernels.support(value) == (low.rank() <= value.rank() <= high.rank()),
        kernels matches Kernels::TruncLogNorm { low, high } ==> kernels.support(value) == (low.rank() <= value.rank() <= high.rank()),
        kernels is DiscreteTruncNorm ==> kernels.support(value),
        kernels is DiscreteTruncLogNorm ==> kernels.support(value) == (Float { bits: 0 }).below(value),
        kernels matches Kernels::Categorical { cardinality } ==> kernels.support(of_int(c)) == (c < cardinality),
{
    law_small_integer_reads_back(c);
    law_conversion_is_nearest(c as nat);
}

/// Everything but a NaN and negative infinity is above nothing.
pub proof fn law_above_nothing_is_above_negative_infinity(value: Float)
    ensures
        above_nothing(value) <==> (Float { bits: 0xfff0_0000_0000_0000 }).below(value),
        at_most(value, value) == !value.nan(),
{
}

} // verus!
