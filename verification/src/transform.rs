//! Numerical search spaces as vectors.
//!
//! A parameter configuration is a vector with one number for each parameter, in ascending
//! order of the names. Scaling the numbers is done outside.

use vstd::prelude::*;

use crate::convert::{full, law_conversion_keeps_the_order, of_int};
use crate::distribution::{Distribution, Space};
use crate::error::{fails_because, Error, ErrorKind, Result};
use crate::float::Float;
use crate::key_map::{Duplicate, KeyMap};
use crate::order::{lemma_lex_total, lex_lt};
use crate::text::{decimal, decimal_text, joined};
use crate::tpe::{ascending, codes, sorted_names};

verus! {

/// Which number of a vector belongs to which parameter.
pub struct SearchSpaceTransform {
    names: Vec<String>,
    distributions: Vec<Distribution>,
}

/// No parameter is categorical.
pub open spec fn numerical(space: Map<Seq<char>, Space>) -> bool {
    forall|name: Seq<char>| #[trigger] space.contains_key(name) ==> !(space[name] is Categorical)
}

/// The first categorical parameter in ascending order of the names.
pub open spec fn first_categorical(space: Map<Seq<char>, Space>, name: Seq<char>) -> bool {
    &&& space.contains_key(name) && space[name] is Categorical
    &&& forall|other: Seq<char>| #[trigger] space.contains_key(other) && space[other] is Categorical ==> !lex_lt(codes(other), codes(name))
}

/// The result says why a search space cannot be transformed.
pub open spec fn refuses_space<T>(r: Result<T>, space: Map<Seq<char>, Space>) -> bool {
    if space.dom().len() == 0 {
        fails_because(r, ErrorKind::UnsupportedSearchSpace, "Cannot transform an empty search space"@)
    } else {
        exists|name: Seq<char>| #[trigger] first_categorical(space, name) && fails_because(
            r,
            ErrorKind::UnsupportedSearchSpace,
            "Categorical distribution is not supported: "@ + name,
        )
    }
}

impl SearchSpaceTransform {
    /// The names, in order.
    pub closed spec fn order(&self) -> Seq<String> {
        self.names@
    }

    pub closed spec fn spaces(&self) -> Seq<Distribution> {
        self.distributions@
    }

    /// The names ascend, and each has a numerical distribution.
    pub open spec fn wf(&self) -> bool {
        &&& self.order().len() == self.spaces().len()
        &&& ascending(self.order())
        &&& forall|i: int| 0 <= i < self.spaces().len() ==> !((#[trigger] self.spaces()[i])@ is Categorical)
    }

    /// The transformation is for the search space.
    pub open spec fn covers_space(&self, space: Map<Seq<char>, Space>) -> bool {
        &&& forall|i: int| 0 <= i < self.order().len() ==> space.contains_key((#[trigger] self.order()[i])@)
            && space[self.order()[i]@] == self.spaces()[i]@
        &&& forall|name: Seq<char>| #[trigger] space.contains_key(name) ==> exists|i: int| 0 <= i < self.order().len()
            && (#[trigger] self.order()[i])@ == name
    }

    /// The parameter at place `i` is the first that is missing.
    pub open spec fn first_missing(&self, params: Map<Seq<char>, Float>, i: int) -> bool {
        &&& 0 <= i < self.order().len()
        &&& !params.contains_key(self.order()[i]@)
        &&& forall|k: int| 0 <= k < i ==> params.contains_key((#[trigger] self.order()[k])@)
    }

    /// Creates a transformation for a search space that is numerical and not empty.
    pub fn new(search_space: &KeyMap<String, Distribution>) -> (r: Result<SearchSpaceTransform>)
        ensures
            if search_space@.dom().len() > 0 && numerical(search_space@) {
                r is Ok && r->Ok_0.wf() && r->Ok_0.covers_space(search_space@)
            } else {
                refuses_space(r, search_space@)
            },
    {
        if search_space.len() == 0 {
            return Err(Error::with_reason(ErrorKind::UnsupportedSearchSpace, "Cannot transform an empty search space".to_owned()));
        }
        let names = sorted_names(search_space);
        let mut distributions: Vec<Distribution> = Vec::new();
        let mut i: usize = 0;
        while i < names.len()
            invariant
                i <= names@.len(),
                search_space@.dom().len() > 0,
                ascending(names@),
                forall|k: int| 0 <= k < names@.len() ==> search_space@.contains_key((#[trigger] names@[k])@),
                forall|name: Seq<char>| #[trigger] search_space@.contains_key(name) ==> exists|k: int| 0 <= k < names@.len() && (
                #[trigger] names@[k])@ == name,
                distributions@.len() == i,
                forall|k: int| 0 <= k < i ==> (#[trigger] distributions@[k])@ == search_space@[names@[k]@]
                    && !(distributions@[k]@ is Categorical),
            decreases names@.len() - i,
        {
            assert(search_space@.contains_key(names@[i as int]@));
            match search_space.get(&names[i]) {
                Some(d) => {
                    if matches!(*d, Distribution::Categorical { .. }) {
                        proof {
                            let name = names@[i as int]@;
                            assert(search_space@[name] is Categorical);
                            assert forall|other: Seq<char>| #[trigger] search_space@.contains_key(other) && search_space@[other] is Categorical
                                implies !lex_lt(codes(other), codes(name)) by {
                                let k = choose|k: int| 0 <= k < names@.len() && (#[trigger] names@[k])@ == other;
                                if k < i {
                                    assert(distributions@[k]@ == search_space@[names@[k]@]);
                                }
                                lemma_lex_total(codes(other), codes(name));
                            }
                            assert(first_categorical(search_space@, name));
                        }
                        return Err(
                            Error::with_reason(
                                ErrorKind::UnsupportedSearchSpace,
                                joined("Categorical distribution is not supported: ", names[i].as_str()),
                            ),
                        );
                    }
                    distributions.push(*d);
                }
                None => {}
            }
            i = i + 1;
        }
        let r = SearchSpaceTransform { names, distributions };
        proof {
            assert(ascending(r.order()));
            assert forall|name: Seq<char>| #[trigger] search_space@.contains_key(name) implies !(search_space@[name] is Categorical) by {
                let k = choose|k: int| 0 <= k < names@.len() && (#[trigger] names@[k])@ == name;
                assert(distributions@[k]@ == search_space@[names@[k]@]);
            }
            assert forall|k: int| 0 <= k < r.order().len() implies search_space@.contains_key((#[trigger] r.order()[k])@)
                && search_space@[r.order()[k]@] == r.spaces()[k]@ by {
                assert(distributions@[k]@ == search_space@[names@[k]@]);
            }
        }
        Ok(r)
    }

    /// Returns the parameter names in the order used by vectors.
    pub fn parameter_names(&self) -> (r: &Vec<String>)
        ensures
            r@ == self.order(),
    {
        &self.names
    }

    /// The distributions in the order used by vectors.
    pub fn distributions(&self) -> (r: &Vec<Distribution>)
        ensures
            r@ == self.spaces(),
    {
        &self.distributions
    }

    /// A configuration as a vector, before scaling. Fails where a parameter is missing.
    pub fn to_vector(&self, params: &KeyMap<String, Float>) -> (r: Result<Vec<Float>>)
        ensures
            if forall|i: int| 0 <= i < self.order().len() ==> params@.contains_key((#[trigger] self.order()[i])@) {
                r is Ok && r->Ok_0@ == Seq::new(self.order().len(), |i: int| params@[self.order()[i]@])
            } else {
                exists|i: int| #[trigger] self.first_missing(params@, i) && fails_because(
                    r,
                    ErrorKind::Unexpected,
                    "Parameter configuration is missing: "@ + self.order()[i]@,
                )
            },
    {
        let mut out: Vec<Float> = Vec::new();
        let mut i: usize = 0;
        while i < self.names.len()
            invariant
                i <= self.names@.len(),
                self.order() == self.names@,
                out@.len() == i,
                forall|k: int| 0 <= k < i ==> params@.contains_key((#[trigger] self.names@[k])@) && out@[k] == params@[self.names@[k]@],
            decreases self.names@.len() - i,
        {
            match params.get(&self.names[i]) {
                Some(v) => {
                    out.push(*v);
                }
                None => {
                    assert(self.first_missing(params@, i as int));
                    return Err(
                        Error::with_reason(ErrorKind::Unexpected, joined("Parameter configuration is missing: ", self.names[i].as_str())),
                    );
                }
            }
            i = i + 1;
        }
        assert(out@ =~= Seq::new(self.order().len(), |i: int| params@[self.order()[i]@]));
        Ok(out)
    }

    /// A vector, scaled back, as a configuration: each number is kept within its
    /// distribution. Fails where the vector has another length.
    pub fn from_vector(&self, values: &Vec<Float>) -> (r: Result<KeyMap<String, Float>>)
        requires
            self.wf(),
            forall|i: int| 0 <= i < self.spaces().len() ==> confinable(#[trigger] self.spaces()[i]),
        ensures
            if values@.len() != self.order().len() {
                fails_because(
                    r,
                    ErrorKind::Unexpected,
                    "Expected "@ + decimal(self.order().len()) + " transformed parameters, got "@ + decimal(values@.len()),
                )
            } else {
                &&& r is Ok
                &&& forall|name: Seq<char>| #[trigger] r->Ok_0@.contains_key(name) ==> exists|i: int| 0 <= i < self.order().len()
                    && (#[trigger] self.order()[i])@ == name
                &&& forall|i: int| 0 <= i < self.order().len() ==> r->Ok_0@.contains_key((#[trigger] self.order()[i])@)
                    && r->Ok_0@[self.order()[i]@] == confined(values@[i], self.spaces()[i])
            },
    {
        if values.len() != self.names.len() {
            let expected = joined("Expected ", decimal_text(self.names.len() as u64).as_str());
            let but = joined(expected.as_str(), " transformed parameters, got ");
            return Err(Error::with_reason(ErrorKind::Unexpected, joined(but.as_str(), decimal_text(values.len() as u64).as_str())));
        }
        let mut out: KeyMap<String, Float> = KeyMap::new();
        let mut i: usize = 0;
        while i < self.names.len()
            invariant
                i <= self.names@.len(),
                self.order() == self.names@,
                self.spaces() == self.distributions@,
                self.wf(),
                forall|i: int| 0 <= i < self.spaces().len() ==> confinable(#[trigger] self.spaces()[i]),
                values@.len() == self.names@.len(),
                forall|name: Seq<char>| #[trigger] out@.contains_key(name) ==> exists|k: int| 0 <= k < i
                    && (#[trigger] self.names@[k])@ == name,
                forall|k: int| 0 <= k < i ==> out@.contains_key((#[trigger] self.names@[k])@)
                    && out@[self.names@[k]@] == confined(values@[k], self.distributions@[k]),
            decreases self.names@.len() - i,
        {
            let ghost before = out@;
            let ghost here = self.names@[i as int]@;
            assert(confinable(self.spaces()[i as int]));
            out.insert(self.names[i].duplicate(), confine(values[i], &self.distributions[i]));
            proof {
                assert forall|k: int| 0 <= k < i implies (#[trigger] self.names@[k])@ != here by {
                    crate::order::lemma_lex_total(crate::tpe::codes(self.names@[k]@), crate::tpe::codes(here));
                    assert(self.order()[k] == self.names@[k] && self.order()[i as int] == self.names@[i as int]);
                }
                assert forall|name: Seq<char>| #[trigger] out@.contains_key(name) implies exists|k: int| 0 <= k < i + 1
                    && (#[trigger] self.names@[k])@ == name by {
                    if name == here {
                        assert(self.names@[i as int]@ == name);
                    } else {
                        assert(before.contains_key(name));
                    }
                }
            }
            i = i + 1;
        }
        Ok(out)
    }
}

/// The bounds of a distribution, if it is numerical, can hold a value between them.
pub open spec fn confinable(d: Distribution) -> bool {
    match d {
        Distribution::Float { low, high, step, .. } => {
            &&& !low.nan()
            &&& !high.nan()
            &&& low.rank() <= high.rank()
        },
        Distribution::Int { low, high, .. } => of_int(low as int).rank() <= of_int(high as int).rank(),
        Distribution::Categorical { .. } => true,
    }
}

/// The value between two bounds.
pub open spec fn between(value: Float, low: Float, high: Float) -> Float {
    if value.below(low) {
        low
    } else if high.below(value) {
        high
    } else {
        value
    }
}

/// The value kept within its distribution. The upper bound of a continuous range is left
/// out; a range of one value leaves the value as it is.
pub open spec fn confined(value: Float, d: Distribution) -> Float {
    match d {
        Distribution::Float { low, high, step, log } => if step is Some && !log {
            between(value, low, high)
        } else if low.rank() == high.rank() {
            value
        } else {
            between(value, low, high.next_below())
        },
        Distribution::Int { low, high, .. } => between(value, of_int(low as int), of_int(high as int)),
        Distribution::Categorical { .. } => value,
    }
}

/// Keeps a value that was scaled back, and rounded to its step, within its distribution.
pub fn confine(value: Float, distribution: &Distribution) -> (r: Float)
    requires
        confinable(*distribution),
    ensures
        r == confined(value, *distribution),
{
    match *distribution {
        Distribution::Float { low, high, step, log } => {
            if step.is_some() && !log {
                value.clamp(low, high)
            } else if low.key() == high.key() {
                value
            } else {
                value.clamp(low, high.next_down())
            }
        }
        Distribution::Int { low, high, .. } => value.clamp(Float::from_i64(low), Float::from_i64(high)),
        Distribution::Categorical { .. } => value,
    }
}

/// A number, scaled back, never leaves the range that was asked for: it is at least the
/// lower bound, and below the upper bound of a continuous range.
pub proof fn law_scaled_values_stay_in_range(value: Float, low: Float, high: Float, log: bool)
    requires
        !value.nan(),
        !low.nan(),
        !high.nan(),
        low.rank() < high.rank(),
    ensures
        ({
            let v = confined(value, Distribution::Float { low, high, step: None, log });
            low.rank() <= v.rank() < high.rank() && !v.nan()
        }),
{
    let top = high.next_below();
    assert(top.rank() == high.rank() - 1);
}

/// A value that lies in its distribution stays; one below moves to the lower bound. One above
/// moves to the upper bound of a range with steps and of an integer range, and to the number just
/// below the upper bound of a continuous range.
pub proof fn law_values_are_confined_to_the_nearest(value: Float, low: Float, high: Float, step: Float, log: bool)
    requires
        !value.nan(),
        !low.nan(),
        !high.nan(),
        low.rank() < high.rank(),
    ensures
        ({
            let open = confined(value, Distribution::Float { low, high, step: None, log });
            let closed = confined(value, Distribution::Float { low, high, step: Some(step), log: false });
            &&& value.below(low) ==> open == low && closed == low
            &&& !value.below(low) && value.below(high) ==> open == value && closed == value
            &&& !value.below(high) ==> open.below(high) && open.rank() == high.rank() - 1
            &&& high.below(value) ==> closed == high
            &&& value.rank() == high.rank() ==> closed == value
        }),
{
}

/// An integer value is kept between the bounds of its range.
pub proof fn law_integers_are_confined_to_the_bounds(i: i64, low: i64, high: i64, step: i64, log: bool)
    requires
        low <= high,
        -full() < i < full(),
        -full() < low < full(),
        -full() < high < full(),
    ensures
        confined(of_int(i as int), Distribution::Int { low, high, step, log }) == of_int(
            if i < low {
                low as int
            } else if i > high {
                high as int
            } else {
                i as int
            },
        ),
{
    if i < low {
        law_conversion_keeps_the_order(i as int, low as int);
    } else {
        law_conversion_keeps_the_order(low as int, i as int);
    }
    if i <= high {
        law_conversion_keeps_the_order(i as int, high as int);
    } else {
        law_conversion_keeps_the_order(high as int, i as int);
    }
}

/// A search space is numerical where it has only float and integer parameters.
pub proof fn law_numerical_spaces_have_no_choices(space: Map<Seq<char>, Space>)
    ensures
        numerical(space) <==> forall|name: Seq<char>| #[trigger] space.contains_key(name) ==> space[name] is Float || space[name] is Int,
{
    if forall|name: Seq<char>| #[trigger] space.contains_key(name) ==> space[name] is Float || space[name] is Int {
        assert(numerical(space));
    }
}

/// The first categorical parameter comes before every other one: at the first difference of the
/// names it has the smaller character, or ends.
pub proof fn law_first_categorical_comes_first(space: Map<Seq<char>, Space>, name: Seq<char>, other: Seq<char>) -> (k: int)
    requires
        first_categorical(space, name),
        space.contains_key(other),
        space[other] is Categorical,
        other != name,
    ensures
        space.contains_key(name) && space[name] is Categorical,
        0 <= k <= name.len(),
        k < other.len(),
        forall|j: int| 0 <= j < k ==> name[j] == other[j],
        k == name.len() || (name[k] as int) < (other[k] as int),
{
    let u = codes(name);
    let v = codes(other);
    lemma_lex_total(u, v);
    if u == v {
        crate::text::lemma_codes_differ(name, other);
    }
    let k = choose|k: int| #[trigger] crate::order::differs_first_at(u, v, k) && k < v.len() && (k == u.len() || u[k] < v[k]);
    assert(u.len() == name.len() && v.len() == other.len());
    assert forall|j: int| 0 <= j < k implies name[j] == other[j] by {
        assert(u[j] == v[j]);
        assert(u[j] == name[j] as int && v[j] == other[j] as int);
    }
    k
}

} // verus!
