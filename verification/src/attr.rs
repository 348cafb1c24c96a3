//! Attributes of studies and trials, and what is encoded in them.

use vstd::prelude::*;

use crate::float::Float;
use crate::key_map::{Duplicate, KeyMap, Same};
use crate::text::{
    decimal, decimal_text, digits_value, has_prefix, hex_digits, hex_text, joined, law_decimal_is_injective,
    law_signed_decimal_reads_back, lemma_decimal, lemma_hex16, parse_i64, parse_u64, parsed_signed, parsed_unsigned,
    signed_decimal, signed_text, text_from, texts_equal,
};

verus! {

/// Distinguishes between user and system attributes.
#[derive(Debug)]
pub enum AttrKey {
    /// User-defined metadata.
    User(String),
    /// Internal metadata.
    System(String),
}

/// An attribute key by its characters.
pub enum AttrName {
    User(Seq<char>),
    System(Seq<char>),
}

impl View for AttrKey {
    type V = AttrName;

    open spec fn view(&self) -> AttrName {
        match self {
            AttrKey::User(s) => AttrName::User(s@),
            AttrKey::System(s) => AttrName::System(s@),
        }
    }
}

impl Same for AttrKey {
    fn same(&self, other: &AttrKey) -> (r: bool) {
        match (self, other) {
            (AttrKey::User(a), AttrKey::User(b)) => a.same(b),
            (AttrKey::System(a), AttrKey::System(b)) => a.same(b),
            _ => false,
        }
    }
}

impl Duplicate for AttrKey {
    fn duplicate(&self) -> (r: AttrKey) {
        match self {
            AttrKey::User(s) => AttrKey::User(s.duplicate()),
            AttrKey::System(s) => AttrKey::System(s.duplicate()),
        }
    }
}

/// Attribute map used by studies and trials.
pub type Attrs = KeyMap<AttrKey, String>;

/// Numbers in decimal notation by their text, as `str::parse` reads them.
pub type Decimals = KeyMap<String, Float>;

/// Label used for categorical choices and fixed queued parameters.
#[derive(Debug)]
pub enum CategoryLabel {
    Float(Float),
    Int(i64),
    String(String),
    Bool(bool),
    Null,
}

/// A label by its contents.
pub enum Label {
    Float(Float),
    Int(i64),
    String(Seq<char>),
    Bool(bool),
    Null,
}

impl View for CategoryLabel {
    type V = Label;

    open spec fn view(&self) -> Label {
        match self {
            CategoryLabel::Float(f) => Label::Float(*f),
            CategoryLabel::Int(i) => Label::Int(*i),
            CategoryLabel::String(s) => Label::String(s@),
            CategoryLabel::Bool(b) => Label::Bool(*b),
            CategoryLabel::Null => Label::Null,
        }
    }
}

impl Duplicate for CategoryLabel {
    fn duplicate(&self) -> (r: CategoryLabel) {
        match self {
            CategoryLabel::Float(f) => CategoryLabel::Float(*f),
            CategoryLabel::Int(i) => CategoryLabel::Int(*i),
            CategoryLabel::String(s) => CategoryLabel::String(s.duplicate()),
            CategoryLabel::Bool(b) => CategoryLabel::Bool(*b),
            CategoryLabel::Null => CategoryLabel::Null,
        }
    }
}

impl Label {
    /// Whether two labels are equal; floats compare as numbers.
    pub open spec fn equals(self, other: Label) -> bool {
        match (self, other) {
            (Label::Float(a), Label::Float(b)) => a.same(b),
            (Label::Float(_), _) => false,
            (_, Label::Float(_)) => false,
            _ => self == other,
        }
    }

    /// The text of a label.
    pub open spec fn serialized(self) -> Seq<char> {
        match self {
            Label::Float(f) => "f:0x"@ + hex_digits(f.bits as nat, 16),
            Label::Int(i) => "i:"@ + signed_decimal(i as int),
            Label::String(s) => "s:"@ + s,
            Label::Bool(b) => if b {
                "true"@
            } else {
                "false"@
            },
            Label::Null => "None"@,
        }
    }
}

pub open spec fn begins(s: Seq<char>, prefix: Seq<char>) -> bool {
    prefix.len() <= s.len() && s.take(prefix.len() as int) == prefix
}

/// The bits behind `0x`, if the text holds them.
pub open spec fn hex_bits(f: Seq<char>) -> Option<nat> {
    if begins(f, "0x"@) {
        parsed_unsigned(f.skip("0x"@.len() as int), 16, u64::MAX as nat)
    } else {
        None
    }
}

/// The label that a text stands for. A float that is not given by its bits is looked up
/// among the decimals.
pub open spec fn deserialized(s: Seq<char>, decimals: Map<Seq<char>, Float>) -> Option<Label> {
    if s == "None"@ {
        Some(Label::Null)
    } else if s == "true"@ {
        Some(Label::Bool(true))
    } else if s == "false"@ {
        Some(Label::Bool(false))
    } else if begins(s, "f:"@) {
        let f = s.skip("f:"@.len() as int);
        match hex_bits(f) {
            Some(bits) => Some(Label::Float(Float { bits: bits as u64 })),
            None => if decimals.contains_key(f) {
                Some(Label::Float(decimals[f]))
            } else {
                None
            },
        }
    } else if begins(s, "i:"@) {
        match parsed_signed(s.skip("i:"@.len() as int)) {
            Some(i) => Some(Label::Int(i as i64)),
            None => None,
        }
    } else if begins(s, "s:"@) {
        Some(Label::String(s.skip("s:"@.len() as int)))
    } else {
        None
    }
}

/// Every label is read back from its text, whatever decimals are known.
pub proof fn law_label_reads_back(label: Label, decimals: Map<Seq<char>, Float>)
    ensures
        deserialized(label.serialized(), decimals) == Some(label),
{
    reveal_strlit("None");
    reveal_strlit("true");
    reveal_strlit("false");
    reveal_strlit("f:0x");
    reveal_strlit("f:");
    reveal_strlit("0x");
    reveal_strlit("i:");
    reveal_strlit("s:");
    let s = label.serialized();
    match label {
        Label::Float(f) => {
            let hex = hex_digits(f.bits as nat, 16);
            lemma_hex16(f.bits);
            assert(s[0] == 'f' && s[1] == ':' && s[2] == '0' && s[3] == 'x');
            assert("None"@[1] == 'o' && "true"@[1] == 'r' && "false"@[1] == 'a');
            assert(s.take(2) =~= "f:"@);
            let rest = s.skip(2);
            assert(rest.take(2) =~= "0x"@);
            assert(rest.skip(2) =~= hex);
        }
        Label::Int(i) => {
            law_signed_decimal_reads_back(i);
            assert(s[0] == 'i' && s[1] == ':');
            assert("None"@[1] == 'o' && "true"@[1] == 'r' && "false"@[1] == 'a');
            assert(s.take(2)[0] == 'i' && "f:"@[0] == 'f');
            assert(s.take(2) =~= "i:"@);
            assert(s.skip(2) =~= signed_decimal(i as int));
        }
        Label::String(t) => {
            assert(s[0] == 's' && s[1] == ':');
            assert("None"@[1] == 'o' && "true"@[1] == 'r' && "false"@[1] == 'a');
            assert(s.take(2)[0] == 's' && "f:"@[0] == 'f' && "i:"@[0] == 'i');
            assert(s.take(2) =~= "s:"@);
            assert(s.skip(2) =~= t);
        }
        Label::Bool(b) => {
            assert("true"@[0] == 't' && "None"@[0] == 'N' && "false"@[0] == 'f');
        }
        Label::Null => {}
    }
}

impl CategoryLabel {
    /// Serializes the label to a stable string representation.
    pub fn serialize(&self) -> (s: String)
        ensures
            s@ == self@.serialized(),
    {
        match self {
            CategoryLabel::Float(f) => joined("f:0x", hex_text(f.bits).as_str()),
            CategoryLabel::Int(i) => joined("i:", signed_text(*i).as_str()),
            CategoryLabel::String(s) => joined("s:", s.as_str()),
            CategoryLabel::Bool(b) => if *b {
                "true".to_owned()
            } else {
                "false".to_owned()
            },
            CategoryLabel::Null => "None".to_owned(),
        }
    }

    /// Deserializes a value produced by [`CategoryLabel::serialize`], or a float in
    /// decimal notation that is among the decimals.
    pub fn deserialize(s: &str, decimals: &Decimals) -> (r: Option<CategoryLabel>)
        ensures
            r is Some == deserialized(s@, decimals@) is Some,
            r is Some ==> r->Some_0@ == deserialized(s@, decimals@)->Some_0,
    {
        proof {
            reveal_strlit("f:");
            reveal_strlit("0x");
            reveal_strlit("i:");
            reveal_strlit("s:");
        }
        if texts_equal(s, "None") {
            return Some(CategoryLabel::Null);
        }
        if texts_equal(s, "true") {
            return Some(CategoryLabel::Bool(true));
        }
        if texts_equal(s, "false") {
            return Some(CategoryLabel::Bool(false));
        }
        if has_prefix(s, "f:") {
            let f = text_from(s, 2);
            if has_prefix(f.as_str(), "0x") {
                let hex = text_from(f.as_str(), 2);
                match parse_u64(hex.as_str(), 16) {
                    Some(bits) => {
                        return Some(CategoryLabel::Float(Float { bits }));
                    }
                    None => {}
                }
            }
            return match decimals.get(&f) {
                Some(v) => Some(CategoryLabel::Float(*v)),
                None => None,
            };
        }
        if has_prefix(s, "i:") {
            return match parse_i64(text_from(s, 2).as_str()) {
                Some(i) => Some(CategoryLabel::Int(i)),
                None => None,
            };
        }
        if has_prefix(s, "s:") {
            return Some(CategoryLabel::String(text_from(s, 2)));
        }
        None
    }

    /// Whether two labels are equal; floats compare as numbers.
    pub fn equals(&self, other: &CategoryLabel) -> (r: bool)
        ensures
            r == self@.equals(other@),
    {
        match (self, other) {
            (CategoryLabel::Float(a), CategoryLabel::Float(b)) => a.num_eq(*b),
            (CategoryLabel::Int(a), CategoryLabel::Int(b)) => *a == *b,
            (CategoryLabel::String(a), CategoryLabel::String(b)) => a.same(b),
            (CategoryLabel::Bool(a), CategoryLabel::Bool(b)) => *a == *b,
            (CategoryLabel::Null, CategoryLabel::Null) => true,
            _ => false,
        }
    }
}

/// The text behind the prefix of a float label that is to be read in decimal.
pub fn decimal_notation(s: &str) -> (r: Option<String>)
    ensures
        r is Some == (begins(s@, "f:"@) && hex_bits(s@.skip("f:"@.len() as int)) is None),
        r is Some ==> r->Some_0@ == s@.skip("f:"@.len() as int),
{
    proof {
        reveal_strlit("f:");
        reveal_strlit("0x");
    }
    if !has_prefix(s, "f:") {
        return None;
    }
    let f = text_from(s, 2);
    if has_prefix(f.as_str(), "0x") {
        if parse_u64(text_from(f.as_str(), 2).as_str(), 16).is_some() {
            return None;
        }
    }
    Some(f)
}

/// The key of the label of one choice of a parameter.
pub open spec fn category_label_key(param_name: Seq<char>, choice_idx: nat) -> AttrName {
    AttrName::System("category_labels:"@ + param_name + ":"@ + decimal(choice_idx))
}

/// The key of a fixed parameter.
pub open spec fn fixed_param_key(param_name: Seq<char>) -> AttrName {
    AttrName::System("fixed_params:"@ + param_name)
}

/// Returns the internal system-attribute key used to store a categorical label.
pub fn system_key_category_label(param_name: &str, choice_idx: usize) -> (r: AttrKey)
    ensures
        r@ == category_label_key(param_name@, choice_idx as nat),
{
    let a = joined("category_labels:", param_name);
    let b = joined(a.as_str(), ":");
    AttrKey::System(joined(b.as_str(), decimal_text(choice_idx as u64).as_str()))
}

/// Returns the internal system-attribute key used for queued fixed parameters.
pub fn system_key_fixed_param(param_name: &str) -> (r: AttrKey)
    ensures
        r@ == fixed_param_key(param_name@),
{
    AttrKey::System(joined("fixed_params:", param_name))
}

/// Different parameters and different choices have different keys.
pub proof fn law_label_keys_differ(p: Seq<char>, a: nat, q: Seq<char>, b: nat)
    requires
        category_label_key(p, a) == category_label_key(q, b),
    ensures
        p == q,
        a == b,
{
    let head = "category_labels:"@;
    let s = head + p + ":"@ + decimal(a);
    let t = head + q + ":"@ + decimal(b);
    assert(s == t);
    reveal_strlit(":");
    lemma_decimal(a);
    lemma_decimal(b);
    let m = head.len() + p.len();
    let n = head.len() + q.len();
    assert(s[m as int] == ':');
    assert(t[n as int] == ':');
    if m > n {
        assert(t[m as int] == decimal(b)[m - n - 1]);
    }
    if n > m {
        assert(s[n as int] == decimal(a)[n - m - 1]);
    }
    assert(s.subrange(head.len() as int, m as int) =~= p);
    assert(t.subrange(head.len() as int, n as int) =~= q);
    assert(s.skip((m + 1) as int) =~= decimal(a));
    assert(t.skip((n + 1) as int) =~= decimal(b));
    law_decimal_is_injective(a, b);
}

pub proof fn law_fixed_keys_differ(a: Seq<char>, b: Seq<char>)
    requires
        fixed_param_key(a) == fixed_param_key(b),
    ensures
        a == b,
{
    let head = "fixed_params:"@;
    assert((head + a).skip(head.len() as int) =~= a);
    assert((head + b).skip(head.len() as int) =~= b);
}

/// The first `n` labels as attributes.
pub open spec fn label_attrs(param_name: Seq<char>, labels: Seq<CategoryLabel>, n: nat) -> Map<AttrName, Seq<char>>
    decreases n,
{
    if n == 0 {
        Map::empty()
    } else {
        label_attrs(param_name, labels, (n - 1) as nat).insert(
            category_label_key(param_name, (n - 1) as nat),
            labels[n - 1]@.serialized(),
        )
    }
}

/// Encodes categorical labels into system attributes.
pub fn category_labels_to_attrs(param_name: &str, labels: &Vec<CategoryLabel>) -> (attrs: Attrs)
    ensures
        attrs@ == label_attrs(param_name@, labels@, labels@.len()),
{
    let mut attrs: Attrs = KeyMap::new();
    let mut i: usize = 0;
    while i < labels.len()
        invariant
            i <= labels@.len(),
            attrs@ == label_attrs(param_name@, labels@, i as nat),
        decreases labels@.len() - i,
    {
        attrs.insert(system_key_category_label(param_name, i), labels[i].serialize());
        i = i + 1;
    }
    attrs
}

/// The label of one choice, if the attributes hold a readable one.
pub open spec fn stored_label(
    attrs: Map<AttrName, Seq<char>>,
    param_name: Seq<char>,
    i: nat,
    decimals: Map<Seq<char>, Float>,
) -> Option<Label> {
    let key = category_label_key(param_name, i);
    if attrs.contains_key(key) {
        deserialized(attrs[key], decimals)
    } else {
        None
    }
}

/// The labels of the first `len` choices, if all of them are there.
pub open spec fn stored_labels(
    attrs: Map<AttrName, Seq<char>>,
    param_name: Seq<char>,
    len: nat,
    decimals: Map<Seq<char>, Float>,
) -> Option<Seq<Label>> {
    if forall|i: int| 0 <= i < len ==> #[trigger] stored_label(attrs, param_name, i as nat, decimals) is Some {
        Some(Seq::new(len, |i: int| stored_label(attrs, param_name, i as nat, decimals)->Some_0))
    } else {
        None
    }
}

/// Labels by their contents.
pub open spec fn label_views(labels: Seq<CategoryLabel>) -> Seq<Label> {
    labels.map_values(|l: CategoryLabel| l@)
}

/// Decodes categorical labels from system attributes.
pub fn get_category_labels(attrs: &Attrs, param_name: &str, len: usize, decimals: &Decimals) -> (r: Option<Vec<CategoryLabel>>)
    ensures
        r is Some == stored_labels(attrs@, param_name@, len as nat, decimals@) is Some,
        r is Some ==> label_views(r->Some_0@) == stored_labels(attrs@, param_name@, len as nat, decimals@)->Some_0,
{
    let mut labels: Vec<CategoryLabel> = Vec::new();
    let mut i: usize = 0;
    while i < len
        invariant
            i <= len,
            labels@.len() == i,
            forall|k: int| 0 <= k < i ==> #[trigger] stored_label(attrs@, param_name@, k as nat, decimals@) is Some
                && labels@[k]@ == stored_label(attrs@, param_name@, k as nat, decimals@)->Some_0,
        decreases len - i,
    {
        let key = system_key_category_label(param_name, i);
        let ghost at = i as int;
        let ghost here = stored_label(attrs@, param_name@, at as nat, decimals@);
        match attrs.get(&key) {
            None => {
                assert(here is None);
                return None;
            }
            Some(text) => match CategoryLabel::deserialize(text.as_str(), decimals) {
                None => {
                    assert(here is None);
                    return None;
                }
                Some(label) => {
                    labels.push(label);
                }
            },
        }
        i = i + 1;
    }
    assert(label_views(labels@) =~= stored_labels(attrs@, param_name@, len as nat, decimals@)->Some_0);
    Some(labels)
}

proof fn lemma_label_attrs(param_name: Seq<char>, labels: Seq<CategoryLabel>, n: nat, i: nat)
    ensures
        label_attrs(param_name, labels, n).contains_key(category_label_key(param_name, i)) == (i < n),
        i < n ==> label_attrs(param_name, labels, n)[category_label_key(param_name, i)] == labels[i as int]@.serialized(),
    decreases n,
{
    if n > 0 {
        lemma_label_attrs(param_name, labels, (n - 1) as nat, i);
        if category_label_key(param_name, i) == category_label_key(param_name, (n - 1) as nat) {
            law_label_keys_differ(param_name, i, param_name, (n - 1) as nat);
        }
    }
}

/// Labels that were encoded are decoded, whatever other attributes stand beside them: as
/// many as are asked for, and none where more are asked for than there are.
pub proof fn law_category_labels_read_back(
    others: Map<AttrName, Seq<char>>,
    param_name: Seq<char>,
    labels: Seq<CategoryLabel>,
    len: nat,
    decimals: Map<Seq<char>, Float>,
)
    ensures
        ({
            let attrs = others.union_prefer_right(label_attrs(param_name, labels, labels.len()));
            &&& len <= labels.len() ==> stored_labels(attrs, param_name, len, decimals) == Some(label_views(labels).take(len as int))
            &&& len > labels.len() && !others.contains_key(category_label_key(param_name, labels.len())) ==> stored_labels(
                attrs,
                param_name,
                len,
                decimals,
            ) is None
        }),
{
    let attrs = others.union_prefer_right(label_attrs(param_name, labels, labels.len()));
    assert forall|i: int| 0 <= i < labels.len() implies #[trigger] stored_label(attrs, param_name, i as nat, decimals)
        == Some(labels[i]@) by {
        lemma_label_attrs(param_name, labels, labels.len(), i as nat);
        law_label_reads_back(labels[i]@, decimals);
    }
    if len <= labels.len() {
        assert(Seq::new(len, |i: int| stored_label(attrs, param_name, i as nat, decimals)->Some_0) =~= label_views(labels).take(len as int));
    } else {
        lemma_label_attrs(param_name, labels, labels.len(), labels.len());
        if !others.contains_key(category_label_key(param_name, labels.len())) {
            let at = labels.len() as int;
            assert(stored_label(attrs, param_name, at as nat, decimals) is None);
        }
    }
}

/// Fixed parameters as attributes.
pub open spec fn fixed_attrs(params: Map<Seq<char>, Label>) -> Map<AttrName, Seq<char>> {
    Map::new(
        |key: AttrName| exists|name: Seq<char>| #[trigger] params.contains_key(name) && key == fixed_param_key(name),
        |key: AttrName| params[fixed_name(key)].serialized(),
    )
}

/// The parameter name in a fixed parameter's key.
pub open spec fn fixed_name(key: AttrName) -> Seq<char> {
    match key {
        AttrName::System(s) => s.skip("fixed_params:"@.len() as int),
        AttrName::User(s) => s,
    }
}

proof fn lemma_fixed_name(name: Seq<char>)
    ensures
        fixed_name(fixed_param_key(name)) == name,
{
    assert(("fixed_params:"@ + name).skip("fixed_params:"@.len() as int) =~= name);
}

/// Encodes fixed parameter values into trial attributes.
pub fn fixed_params_to_attrs(params: &KeyMap<String, CategoryLabel>) -> (attrs: Attrs)
    ensures
        attrs@ == fixed_attrs(params@),
{
    let n: usize = params.len();
    let mut attrs: Attrs = KeyMap::new();
    let ghost keys = params.keys();
    let mut i: usize = 0;
    while i < n
        invariant
            i <= n,
            keys == params.keys(),
            n == keys.len(),
            keys.no_duplicates(),
            forall|key: AttrName| #[trigger] attrs@.contains_key(key) ==> exists|j: int| 0 <= j < i && key == fixed_param_key(#[trigger] keys[j]),
            forall|j: int| 0 <= j < i ==> attrs@.contains_key(fixed_param_key(#[trigger] keys[j]))
                && attrs@[fixed_param_key(keys[j])] == params@[keys[j]].serialized(),
        decreases n - i,
    {
        let e = params.entry(i);
        let ghost before = attrs@;
        attrs.insert(system_key_fixed_param(e.0.as_str()), e.1.serialize());
        proof {
            let new_key = fixed_param_key(keys[i as int]);
            assert forall|key: AttrName| #[trigger] attrs@.contains_key(key) implies
                exists|j: int| 0 <= j < i + 1 && key == fixed_param_key(#[trigger] keys[j]) by {
                if key != new_key {
                    assert(before.contains_key(key));
                }
            }
            assert forall|j: int| 0 <= j < i + 1 implies attrs@.contains_key(fixed_param_key(#[trigger] keys[j]))
                && attrs@[fixed_param_key(keys[j])] == params@[keys[j]].serialized() by {
                if j < i && fixed_param_key(keys[j]) == new_key {
                    law_fixed_keys_differ(keys[j], keys[i as int]);
                }
            }
        }
        i = i + 1;
    }
    proof {
        let m = fixed_attrs(params@);
        assert forall|key: AttrName| attrs@.contains_key(key) == m.contains_key(key) by {
            if attrs@.contains_key(key) {
                let j = choose|j: int| 0 <= j < n && key == fixed_param_key(#[trigger] keys[j]);
                assert(keys.to_set().contains(keys[j]));
                assert(params@.contains_key(keys[j]));
            }
            if m.contains_key(key) {
                let name = choose|name: Seq<char>| #[trigger] params@.contains_key(name) && key == fixed_param_key(name);
                assert(keys.to_set().contains(name));
                let j = choose|j: int| 0 <= j < keys.len() && keys[j] == name;
                assert(attrs@.contains_key(fixed_param_key(keys[j])));
            }
        }
        assert forall|key: AttrName| attrs@.contains_key(key) implies attrs@[key] == m[key] by {
            let j = choose|j: int| 0 <= j < n && key == fixed_param_key(#[trigger] keys[j]);
            lemma_fixed_name(keys[j]);
            assert(m.contains_key(key));
        }
        assert(attrs@ =~= m);
    }
    attrs
}

/// The fixed parameters that the attributes hold: every readable label under a fixed
/// parameter's key.
pub open spec fn extracted(attrs: Map<AttrName, Seq<char>>, decimals: Map<Seq<char>, Float>) -> Map<Seq<char>, Label> {
    Map::new(
        |name: Seq<char>| attrs.contains_key(fixed_param_key(name)) && deserialized(attrs[fixed_param_key(name)], decimals) is Some,
        |name: Seq<char>| deserialized(attrs[fixed_param_key(name)], decimals)->Some_0,
    )
}

/// Extracts all fixed parameters stored in trial attributes.
pub fn extract_fixed_params(attrs: &Attrs, decimals: &Decimals) -> (params: KeyMap<String, CategoryLabel>)
    ensures
        params@ == extracted(attrs@, decimals@),
{
    let n: usize = attrs.len();
    let mut params: KeyMap<String, CategoryLabel> = KeyMap::new();
    let ghost keys = attrs.keys();
    let ghost goal = extracted(attrs@, decimals@);
    let mut i: usize = 0;
    while i < n
        invariant
            i <= n,
            keys == attrs.keys(),
            n == keys.len(),
            keys.no_duplicates(),
            keys.to_set() == attrs@.dom(),
            goal == extracted(attrs@, decimals@),
            forall|name: Seq<char>| #[trigger] params@.contains_key(name) ==> goal.contains_key(name) && params@[name] == goal[name],
            forall|name: Seq<char>, j: int| 0 <= j < i && goal.contains_key(name) && #[trigger] keys[j] == #[trigger] fixed_param_key(name)
                ==> params@.contains_key(name),
        decreases n - i,
    {
        let e = attrs.entry(i);
        let ghost here = keys[i as int];
        match e.0 {
            AttrKey::System(s) => {
                proof {
                    reveal_strlit("fixed_params:");
                }
                if has_prefix(s.as_str(), "fixed_params:") {
                    let name = text_from(s.as_str(), 13);
                    proof {
                        assert("fixed_params:"@ + name@ =~= s@);
                        assert(here == fixed_param_key(name@));
                    }
                    match CategoryLabel::deserialize(e.1.as_str(), decimals) {
                        Some(label) => {
                            params.insert(name, label);
                        }
                        None => {}
                    }
                    assert forall|other: Seq<char>| #[trigger] fixed_param_key(other) == here implies other == name@ by {
                        law_fixed_keys_differ(other, name@);
                    }
                } else {
                    assert forall|name: Seq<char>| #[trigger] fixed_param_key(name) != here by {
                        assert(("fixed_params:"@ + name).take(13) =~= "fixed_params:"@);
                    }
                }
            }
            AttrKey::User(_) => {}
        }
        i = i + 1;
    }
    proof {
        assert forall|name: Seq<char>| #[trigger] goal.contains_key(name) implies params@.contains_key(name) by {
            assert(keys.to_set().contains(fixed_param_key(name)));
            let j = choose|j: int| 0 <= j < keys.len() && keys[j] == fixed_param_key(name);
            assert(keys[j] == fixed_param_key(name));
        }
        assert(params@ =~= goal);
    }
    params
}

/// Fixed parameters that were encoded are extracted again.
pub proof fn law_fixed_params_read_back(params: Map<Seq<char>, Label>, decimals: Map<Seq<char>, Float>)
    ensures
        extracted(fixed_attrs(params), decimals) == params,
{
    let attrs = fixed_attrs(params);
    let out = extracted(attrs, decimals);
    assert forall|name: Seq<char>| out.contains_key(name) == params.contains_key(name) by {
        lemma_fixed_name(name);
        if params.contains_key(name) {
            assert(attrs.contains_key(fixed_param_key(name)));
            law_label_reads_back(params[name], decimals);
        }
        if attrs.contains_key(fixed_param_key(name)) {
            let other = choose|other: Seq<char>| #[trigger] params.contains_key(other) && fixed_param_key(name) == fixed_param_key(other);
            law_fixed_keys_differ(name, other);
        }
    }
    assert forall|name: Seq<char>| params.contains_key(name) implies out[name] == params[name] by {
        lemma_fixed_name(name);
        law_label_reads_back(params[name], decimals);
    }
    assert(out =~= params);
}

/// The text of a label starts with the mark of its type: `f:0x` and the bits of a float in
/// sixteen digits, `i:` and the decimal digits of an integer, `s:` and the characters of a text.
pub proof fn law_labels_are_marked_by_type(label: Label)
    ensures
        label is Float ==> begins(label.serialized(), "f:0x"@) && label.serialized().len() == 20 && digits_value(
            label.serialized().skip(4),
            16,
        ) == Some(label->Float_0.bits as nat),
        label is Int ==> begins(label.serialized(), "i:"@) && parsed_signed(label.serialized().skip(2)) == Some(label->Int_0 as int),
        label is String ==> begins(label.serialized(), "s:"@) && label.serialized().skip(2) == label->String_0,
        label is Bool && label->Bool_0 ==> label.serialized() == seq!['t', 'r', 'u', 'e'],
        label is Bool && !label->Bool_0 ==> label.serialized() == seq!['f', 'a', 'l', 's', 'e'],
        label is Null ==> label.serialized() == seq!['N', 'o', 'n', 'e'],
{
    reveal_strlit("f:0x");
    reveal_strlit("i:");
    reveal_strlit("s:");
    reveal_strlit("true");
    reveal_strlit("false");
    reveal_strlit("None");
    let text = label.serialized();
    match label {
        Label::Float(f) => {
            let digits = hex_digits(f.bits as nat, 16);
            crate::text::lemma_hex_digits(f.bits as nat, 16);
            crate::text::lemma_hex16(f.bits);
            assert(digits[0] != '+');
            assert(text.take(4) =~= "f:0x"@);
            assert(text.skip(4) =~= digits);
        }
        Label::Int(i) => {
            crate::text::law_signed_decimal_reads_back(i);
            assert(text.take(2) =~= "i:"@);
            assert(text.skip(2) =~= signed_decimal(i as int));
        }
        Label::String(s) => {
            assert(text.take(2) =~= "s:"@);
            assert(text.skip(2) =~= s);
        }
        Label::Bool(b) => {
            if b {
                assert(text =~= seq!['t', 'r', 'u', 'e']);
            } else {
                assert(text =~= seq!['f', 'a', 'l', 's', 'e']);
            }
        }
        Label::Null => {
            assert(text =~= seq!['N', 'o', 'n', 'e']);
        }
    }
}

/// Labels of different types differ. Floats are equal where they are the same number, so that
/// both zeros are and a NaN equals nothing; the others are equal where they hold the same.
pub proof fn law_labels_are_equal_within_a_type(a: Label, b: Label)
    ensures
        a.equals(b) == b.equals(a),
        a is Float && b is Float ==> a.equals(b) == (!a->Float_0.nan() && !b->Float_0.nan() && !a->Float_0.below(b->Float_0) && !b->Float_0.below(
            a->Float_0,
        )),
        a is Int && b is Int ==> a.equals(b) == (a->Int_0 == b->Int_0),
        a is String && b is String ==> a.equals(b) == (a->String_0 == b->String_0),
        a is Bool && b is Bool ==> a.equals(b) == (a->Bool_0 == b->Bool_0),
        a is Null && b is Null ==> a.equals(b),
        a.equals(b) ==> a is Float == b is Float && a is Int == b is Int && a is String == b is String && a is Bool == b is Bool,
{
}

/// Labels and fixed parameters are system attributes under `category_labels:` and
/// `fixed_params:`, followed by the parameter's name, and for a label by the number of its choice.
pub proof fn law_keys_name_their_parameter(param_name: Seq<char>, choice_idx: nat)
    ensures
        fixed_param_key(param_name) is System,
        begins(fixed_param_key(param_name)->System_0, "fixed_params:"@),
        fixed_param_key(param_name)->System_0.skip(13) == param_name,
        category_label_key(param_name, choice_idx) is System,
        begins(category_label_key(param_name, choice_idx)->System_0, "category_labels:"@),
        category_label_key(param_name, choice_idx)->System_0.skip(16) == param_name + seq![':'] + decimal(choice_idx),
{
    reveal_strlit("fixed_params:");
    reveal_strlit("category_labels:");
    reveal_strlit(":");
    let f = fixed_param_key(param_name)->System_0;
    let c = category_label_key(param_name, choice_idx)->System_0;
    assert(f.take(13) =~= "fixed_params:"@);
    assert(f.skip(13) =~= param_name);
    assert(c.take(16) =~= "category_labels:"@);
    assert(c.skip(16) =~= param_name + seq![':'] + decimal(choice_idx));
}

} // verus!
