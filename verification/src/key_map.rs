//! A map that keeps its entries in insertion order.

use vstd::prelude::*;

use crate::float::Float;

verus! {

/// Values that are told apart by their view.
pub trait Same: View + Sized {
    fn same(&self, other: &Self) -> (r: bool)
        ensures
            r == (self@ == other@),
    ;
}

/// Values that can be copied, view and all.
pub trait Duplicate: View + Sized {
    fn duplicate(&self) -> (r: Self)
        ensures
            r@ == self@,
    ;
}

impl Same for String {
    fn same(&self, other: &String) -> (r: bool) {
        *self == *other
    }
}

impl Duplicate for String {
    fn duplicate(&self) -> (r: String) {
        self.clone()
    }
}

impl Same for u32 {
    fn same(&self, other: &u32) -> (r: bool) {
        *self == *other
    }
}

impl Duplicate for u32 {
    fn duplicate(&self) -> (r: u32) {
        *self
    }
}

impl View for Float {
    type V = Float;

    open spec fn view(&self) -> Float {
        *self
    }
}

impl Same for Float {
    fn same(&self, other: &Float) -> (r: bool) {
        *self == *other
    }
}

impl Duplicate for Float {
    fn duplicate(&self) -> (r: Float) {
        *self
    }
}

pub struct KeyMap<K: Same, V: View> {
    entries: Vec<(K, V)>,
}

spec fn has_key<K: Same, V: View>(entries: Seq<(K, V)>, key: K::V) -> bool {
    exists|i: int| 0 <= i < entries.len() && (#[trigger] entries[i]).0@ == key
}

spec fn index_of<K: Same, V: View>(entries: Seq<(K, V)>, key: K::V) -> int {
    choose|i: int| 0 <= i < entries.len() && (#[trigger] entries[i]).0@ == key
}

impl<K: Same, V: View> View for KeyMap<K, V> {
    type V = Map<K::V, V::V>;

    closed spec fn view(&self) -> Map<K::V, V::V> {
        Map::new(
            |key: K::V| has_key(self.entries@, key),
            |key: K::V| self.entries@[index_of(self.entries@, key)].1@,
        )
    }
}

impl<K: Same, V: View> KeyMap<K, V> {
    #[verifier::type_invariant]
    spec fn keys_differ(&self) -> bool {
        forall|i: int, j: int| 0 <= i < j < self.entries@.len() ==>
            (#[trigger] self.entries@[i]).0@ != (#[trigger] self.entries@[j]).0@
    }

    /// The keys, in insertion order.
    pub closed spec fn keys(&self) -> Seq<K::V> {
        Seq::new(self.entries@.len(), |i: int| self.entries@[i].0@)
    }

    proof fn lemma_lookup(&self, i: int)
        requires
            self.keys_differ(),
            0 <= i < self.entries@.len(),
        ensures
            self@.contains_key(self.entries@[i].0@),
            self@[self.entries@[i].0@] == self.entries@[i].1@,
    {
        let key = self.entries@[i].0@;
        assert(has_key(self.entries@, key));
        let j = index_of(self.entries@, key);
        assert(0 <= j < self.entries@.len() && self.entries@[j].0@ == key);
        if i < j {
            assert(self.entries@[i].0@ != self.entries@[j].0@);
        } else if j < i {
            assert(self.entries@[j].0@ != self.entries@[i].0@);
        }
    }

    proof fn lemma_keys(&self)
        requires
            self.keys_differ(),
        ensures
            self.keys().no_duplicates(),
            self.keys().to_set() == self@.dom(),
            self@.dom().finite(),
            self@.dom().len() == self.keys().len(),
    {
        let keys = self.keys();
        assert forall|i: int, j: int| 0 <= i < j < keys.len() implies keys[i] != keys[j] by {
            assert(keys[i] == self.entries@[i].0@ && keys[j] == self.entries@[j].0@);
        }
        assert forall|key: K::V| keys.to_set().contains(key) == self@.dom().contains(key) by {
            if keys.contains(key) {
                let i = choose|i: int| 0 <= i < keys.len() && keys[i] == key;
                assert(self.entries@[i].0@ == key);
            }
            if has_key(self.entries@, key) {
                let i = index_of(self.entries@, key);
                assert(keys[i] == key);
            }
        }
        assert(keys.to_set() =~= self@.dom());
        keys.unique_seq_to_set();
    }

    pub fn new() -> (r: KeyMap<K, V>)
        ensures
            r@ == Map::<K::V, V::V>::empty(),
            r.keys().len() == 0,
    {
        let r = KeyMap { entries: Vec::new() };
        assert(r@ =~= Map::<K::V, V::V>::empty());
        r
    }

    /// The number of entries. Each key is listed once, and every key is listed.
    pub fn len(&self) -> (n: usize)
        ensures
            n == self.keys().len(),
            n == self@.dom().len(),
            self@.dom().finite(),
            self.keys().no_duplicates(),
            self.keys().to_set() == self@.dom(),
    {
        proof {
            use_type_invariant(self);
            self.lemma_keys();
        }
        self.entries.len()
    }

    /// The entry at a place in insertion order.
    pub fn entry(&self, i: usize) -> (r: (&K, &V))
        requires
            i < self.keys().len(),
        ensures
            r.0@ == self.keys()[i as int],
            self@.contains_key(r.0@),
            self@[r.0@] == r.1@,
    {
        proof {
            use_type_invariant(self);
            self.lemma_lookup(i as int);
        }
        let e = &self.entries[i];
        (&e.0, &e.1)
    }

    fn position(&self, key: &K) -> (r: Option<usize>)
        ensures
            r is Some ==> r->Some_0 < self.entries@.len() && self.entries@[r->Some_0 as int].0@ == key@,
            r is None ==> !has_key(self.entries@, key@),
    {
        let mut i: usize = 0;
        while i < self.entries.len()
            invariant
                i <= self.entries@.len(),
                forall|j: int| 0 <= j < i ==> (#[trigger] self.entries@[j]).0@ != key@,
            decreases self.entries@.len() - i,
        {
            if self.entries[i].0.same(key) {
                return Some(i);
            }
            i = i + 1;
        }
        None
    }

    pub fn get(&self, key: &K) -> (r: Option<&V>)
        ensures
            r is Some == self@.contains_key(key@),
            r is Some ==> r->Some_0@ == self@[key@],
    {
        match self.position(key) {
            Some(i) => {
                proof {
                    use_type_invariant(self);
                    self.lemma_lookup(i as int);
                }
                Some(&self.entries[i].1)
            }
            None => None,
        }
    }

    pub fn contains_key(&self, key: &K) -> (r: bool)
        ensures
            r == self@.contains_key(key@),
    {
        self.get(key).is_some()
    }

    /// Sets the value of a key. A new key comes last.
    pub fn insert(&mut self, key: K, value: V)
        ensures
            final(self)@ == old(self)@.insert(key@, value@),
            final(self).keys() == if old(self)@.contains_key(key@) { old(self).keys() } else { old(self).keys().push(key@) },
    {
        proof {
            use_type_invariant(&*self);
        }
        let ghost before = *self;
        let ghost k = key@;
        let found = self.position(&key);
        let mut taken = KeyMap { entries: Vec::new() };
        core::mem::swap(self, &mut taken);
        let mut entries = taken.entries;
        match found {
            Some(i) => {
                set_value(&mut entries, i, value);
                proof {
                    lemma_update(before, KeyMap { entries }, k, value@, i as int);
                }
                *self = KeyMap { entries };
                assert(self.keys() =~= before.keys());
                proof {
                    before.lemma_lookup(i as int);
                }
            }
            None => {
                entries.push((key, value));
                proof {
                    lemma_push(before, KeyMap { entries }, k, value@);
                }
                *self = KeyMap { entries };
                assert(self.keys() =~= before.keys().push(k));
            }
        }
    }
}

fn set_value<K: Same, V: View>(entries: &mut Vec<(K, V)>, i: usize, value: V)
    requires
        i < old(entries)@.len(),
    ensures
        final(entries)@.len() == old(entries)@.len(),
        forall|j: int| 0 <= j < old(entries)@.len() ==> (#[trigger] final(entries)@[j]).0@ == old(entries)@[j].0@
            && final(entries)@[j].1@ == (if j == i { value@ } else { old(entries)@[j].1@ }),
{
    let e = &mut entries[i];
    e.1 = value;
}

proof fn lemma_update<K: Same, V: View>(before: KeyMap<K, V>, after: KeyMap<K, V>, key: K::V, value: V::V, i: int)
    requires
        before.keys_differ(),
        0 <= i < before.entries@.len(),
        before.entries@[i].0@ == key,
        after.entries@.len() == before.entries@.len(),
        forall|j: int| 0 <= j < after.entries@.len() ==> (#[trigger] after.entries@[j]).0@ == before.entries@[j].0@
            && after.entries@[j].1@ == (if j == i { value } else { before.entries@[j].1@ }),
    ensures
        after.keys_differ(),
        after@ == before@.insert(key, value),
{
    assert forall|a: int, b: int| 0 <= a < b < after.entries@.len() implies
        (#[trigger] after.entries@[a]).0@ != (#[trigger] after.entries@[b]).0@ by {
        assert(before.entries@[a].0@ != before.entries@[b].0@);
    }
    let m = before@.insert(key, value);
    before.lemma_lookup(i);
    assert forall|k: K::V| after@.contains_key(k) == m.contains_key(k) by {
        if has_key(after.entries@, k) {
            let j = index_of(after.entries@, k);
            before.lemma_lookup(j);
        }
        if has_key(before.entries@, k) {
            let j = index_of(before.entries@, k);
            after.lemma_lookup(j);
        }
        after.lemma_lookup(i);
    }
    assert forall|k: K::V| after@.contains_key(k) implies after@[k] == m[k] by {
        let j = index_of(after.entries@, k);
        after.lemma_lookup(j);
        before.lemma_lookup(j);
        if j != i {
            if j < i {
                assert(before.entries@[j].0@ != before.entries@[i].0@);
            } else {
                assert(before.entries@[i].0@ != before.entries@[j].0@);
            }
        }
    }
    assert(after@ =~= m);
}

proof fn lemma_push<K: Same, V: View>(before: KeyMap<K, V>, after: KeyMap<K, V>, key: K::V, value: V::V)
    requires
        before.keys_differ(),
        !has_key(before.entries@, key),
        after.entries@.len() == before.entries@.len() + 1,
        forall|j: int| 0 <= j < before.entries@.len() ==> after.entries@[j] == #[trigger] before.entries@[j],
        after.entries@.last().0@ == key,
        after.entries@.last().1@ == value,
    ensures
        after.keys_differ(),
        after@ == before@.insert(key, value),
{
    let n = before.entries@.len() as int;
    assert forall|a: int, b: int| 0 <= a < b < after.entries@.len() implies
        (#[trigger] after.entries@[a]).0@ != (#[trigger] after.entries@[b]).0@ by {
        assert(before.entries@[a] == after.entries@[a]);
        if b < n {
            assert(before.entries@[b] == after.entries@[b]);
        }
    }
    let m = before@.insert(key, value);
    assert forall|k: K::V| after@.contains_key(k) == m.contains_key(k) by {
        if has_key(after.entries@, k) {
            let j = index_of(after.entries@, k);
            if j < n {
                assert(before.entries@[j] == after.entries@[j]);
                before.lemma_lookup(j);
            }
        }
        if has_key(before.entries@, k) {
            let j = index_of(before.entries@, k);
            assert(before.entries@[j] == after.entries@[j]);
            after.lemma_lookup(j);
        }
        after.lemma_lookup(n);
    }
    assert forall|k: K::V| after@.contains_key(k) implies after@[k] == m[k] by {
        let j = index_of(after.entries@, k);
        after.lemma_lookup(j);
        if j < n {
            assert(before.entries@[j] == after.entries@[j]);
            before.lemma_lookup(j);
        }
    }
    assert(after@ =~= m);
}

impl<K: Same + Duplicate, V: View + Duplicate> Duplicate for KeyMap<K, V> {
    fn duplicate(&self) -> (r: KeyMap<K, V>) {
        let n: usize = self.len();
        let mut r: KeyMap<K, V> = KeyMap::new();
        let mut i: usize = 0;
        while i < n
            invariant
                i <= n,
                n == self.keys().len(),
                self.keys().no_duplicates(),
                r@.dom() == self.keys().take(i as int).to_set(),
                forall|j: int| 0 <= j < i ==> r@[#[trigger] self.keys()[j]] == self@[self.keys()[j]],
            decreases n - i,
        {
            let e = self.entry(i);
            let ghost before = r@;
            r.insert(e.0.duplicate(), e.1.duplicate());
            proof {
                let s0 = self.keys().take(i as int);
                let s1 = self.keys().take(i + 1);
                assert(s1 =~= s0.push(self.keys()[i as int]));
                assert(s1.to_set() =~= s0.to_set().insert(self.keys()[i as int])) by {
                    lemma_push_set(s0, self.keys()[i as int]);
                }
                assert(r@.dom() =~= s1.to_set());
            }
            i = i + 1;
        }
        proof {
            assert(self.keys().take(n as int) =~= self.keys());
            assert forall|k: K::V| #[trigger] self@.contains_key(k) implies r@[k] == self@[k] by {
                assert(self.keys().to_set().contains(k));
                let j = choose|j: int| 0 <= j < self.keys().len() && self.keys()[j] == k;
                assert(r@[self.keys()[j]] == self@[self.keys()[j]]);
            }
            assert(r@ =~= self@);
        }
        r
    }
}

impl<K: Same + Duplicate, V: View + Duplicate> KeyMap<K, V> {
    /// Sets every entry of another map.
    pub fn extend(&mut self, other: &KeyMap<K, V>)
        ensures
            final(self)@ == old(self)@.union_prefer_right(other@),
    {
        let n: usize = other.len();
        let ghost start = self@;
        let ghost keys = other.keys();
        let mut i: usize = 0;
        assert(keys.take(0).to_set() =~= Set::empty());
        assert(self@ =~= start.union_prefer_right(other@.restrict(keys.take(0).to_set())));
        while i < n
            invariant
                i <= n,
                keys == other.keys(),
                n == keys.len(),
                keys.no_duplicates(),
                self@ == start.union_prefer_right(other@.restrict(keys.take(i as int).to_set())),
            decreases n - i,
        {
            let e = other.entry(i);
            self.insert(e.0.duplicate(), e.1.duplicate());
            proof {
                lemma_restrict_step(start, other@, keys, i as int);
            }
            i = i + 1;
        }
        proof {
            assert(keys.take(n as int) =~= keys);
            assert(other@.restrict(keys.to_set()) =~= other@);
        }
    }

    /// Sets the entries of another map in order, up to the first whose key is there
    /// already; tells whether there was none.
    pub fn extend_new(&mut self, other: &KeyMap<K, V>) -> (r: bool)
        ensures
            r == forall|k: K::V| #[trigger] other@.contains_key(k) ==> !old(self)@.contains_key(k),
            r ==> final(self)@ == old(self)@.union_prefer_right(other@),
            !r ==> exists|k: int| #[trigger] first_clash(old(self)@, other.keys(), k)
                && final(self)@ == old(self)@.union_prefer_right(other@.restrict(other.keys().take(k).to_set())),
    {
        let n: usize = other.len();
        let ghost start = self@;
        let ghost keys = other.keys();
        let mut i: usize = 0;
        assert(keys.take(0).to_set() =~= Set::empty());
        assert(self@ =~= start.union_prefer_right(other@.restrict(keys.take(0).to_set())));
        while i < n
            invariant
                i <= n,
                start == old(self)@,
                keys == other.keys(),
                n == keys.len(),
                keys.no_duplicates(),
                keys.to_set() == other@.dom(),
                self@ == start.union_prefer_right(other@.restrict(keys.take(i as int).to_set())),
                forall|j: int| 0 <= j < i ==> !start.contains_key(#[trigger] keys[j]),
            decreases n - i,
        {
            let e = other.entry(i);
            let ghost here = keys[i as int];
            proof {
                assert(!keys.take(i as int).contains(here)) by {
                    if keys.take(i as int).contains(here) {
                        let j = choose|j: int| 0 <= j < i && keys.take(i as int)[j] == here;
                        assert(keys[j] == here);
                    }
                }
            }
            if self.contains_key(e.0) {
                proof {
                    assert(start.contains_key(here));
                    assert(other@.contains_key(here));
                    assert(first_clash(start, keys, i as int));
                }
                return false;
            }
            self.insert(e.0.duplicate(), e.1.duplicate());
            proof {
                lemma_restrict_step(start, other@, keys, i as int);
            }
            i = i + 1;
        }
        proof {
            assert(keys.take(n as int) =~= keys);
            assert(other@.restrict(keys.to_set()) =~= other@);
            assert forall|k: K::V| #[trigger] other@.contains_key(k) implies !start.contains_key(k) by {
                assert(keys.to_set().contains(k));
                let j = choose|j: int| 0 <= j < keys.len() && keys[j] == k;
                assert(!start.contains_key(keys[j]));
            }
        }
        true
    }
}

/// The key at place `k` is the first that the map has already.
pub open spec fn first_clash<K, V>(map: Map<K, V>, keys: Seq<K>, k: int) -> bool {
    &&& 0 <= k < keys.len()
    &&& map.contains_key(keys[k])
    &&& forall|j: int| 0 <= j < k ==> !map.contains_key(#[trigger] keys[j])
}

proof fn lemma_restrict_step<K, V>(start: Map<K, V>, other: Map<K, V>, keys: Seq<K>, i: int)
    requires
        0 <= i < keys.len(),
        other.contains_key(keys[i]),
    ensures
        start.union_prefer_right(other.restrict(keys.take(i).to_set())).insert(keys[i], other[keys[i]])
            == start.union_prefer_right(other.restrict(keys.take(i + 1).to_set())),
{
    assert(keys.take(i + 1) =~= keys.take(i).push(keys[i]));
    lemma_push_set(keys.take(i), keys[i]);
    assert(start.union_prefer_right(other.restrict(keys.take(i).to_set())).insert(keys[i], other[keys[i]])
        =~= start.union_prefer_right(other.restrict(keys.take(i + 1).to_set())));
}

pub proof fn lemma_push_set<A>(s: Seq<A>, x: A)
    ensures
        s.push(x).to_set() == s.to_set().insert(x),
{
    let t = s.push(x);
    assert forall|a: A| t.to_set().contains(a) == s.to_set().insert(x).contains(a) by {
        if t.contains(a) {
            let i = choose|i: int| 0 <= i < t.len() && t[i] == a;
            if i < s.len() {
                assert(s[i] == a);
            }
        }
        if s.contains(a) {
            let i = choose|i: int| 0 <= i < s.len() && s[i] == a;
            assert(t[i] == a);
        }
        assert(t[s.len() as int] == x);
    }
    assert(t.to_set() =~= s.to_set().insert(x));
}

impl<K: Same + Duplicate, V: View + Same> Same for KeyMap<K, V> {
    fn same(&self, other: &KeyMap<K, V>) -> (r: bool) {
        let n: usize = self.len();
        let m: usize = other.len();
        if n != m {
            return false;
        }
        let mut i: usize = 0;
        while i < n
            invariant
                i <= n,
                n == self.keys().len(),
                forall|j: int| 0 <= j < i ==> other@.contains_key(#[trigger] self.keys()[j])
                    && other@[self.keys()[j]] == self@[self.keys()[j]],
            decreases n - i,
        {
            let e = self.entry(i);
            match other.get(e.0) {
                None => {
                    return false;
                }
                Some(v) => {
                    if !v.same(e.1) {
                        return false;
                    }
                }
            }
            i = i + 1;
        }
        proof {
            assert forall|k: K::V| #[trigger] self@.contains_key(k) implies other@.contains_key(k) && other@[k] == self@[k] by {
                assert(self.keys().to_set().contains(k));
                let j = choose|j: int| 0 <= j < self.keys().len() && self.keys()[j] == k;
                assert(other@.contains_key(self.keys()[j]));
            }
            assert(self@.dom().subset_of(other@.dom()));
            vstd::set_lib::lemma_subset_equality(self@.dom(), other@.dom());
            assert(self@ =~= other@);
        }
        true
    }
}

/// The first clash is at a key that the map has, and none before it clashes.
pub proof fn law_first_clash_is_first<K, V>(map: Map<K, V>, keys: Seq<K>, k: int, j: int)
    requires
        first_clash(map, keys, k),
    ensures
        0 <= k < keys.len(),
        map.contains_key(keys[k]),
        0 <= j < k ==> !map.contains_key(keys[j]),
{
}

} // verus!
