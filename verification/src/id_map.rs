//! Trial ids by study and number, and back.

use std::collections::HashMap;

use vstd::prelude::*;

verus! {

broadcast use vstd::std_specs::hash::group_hash_axioms;

/// Where a trial stands: its study and its number there.
pub type Place = (u32, u32);

spec fn code(place: Place) -> u64 {
    (place.0 * 0x1_0000_0000 + place.1) as u64
}

proof fn lemma_code(a: Place, b: Place)
    ensures
        code(a) == code(b) ==> a == b,
        code(a) == a.0 * 0x1_0000_0000 + a.1,
{
}

fn encode(place: Place) -> (r: u64)
    ensures
        r == code(place),
{
    place.0 as u64 * 0x1_0000_0000 + place.1 as u64
}

/// Some trial stands at the place.
pub open spec fn occupied(ids: Map<u32, Place>, place: Place) -> bool {
    exists|t: u32| #[trigger] ids.contains_key(t) && ids[t] == place
}

/// No two trials stand at one place.
pub open spec fn places_differ(ids: Map<u32, Place>) -> bool {
    forall|t: u32, u: u32| #[trigger] ids.contains_key(t) && #[trigger] ids.contains_key(u) && ids[t] == ids[u] ==> t == u
}

/// What is left of the map without a study.
pub open spec fn without_study(ids: Map<u32, Place>, study_id: u32) -> Map<u32, Place> {
    Map::new(|t: u32| ids.contains_key(t) && ids[t].0 != study_id, |t: u32| ids[t])
}

pub struct TrialIdNumberHashMap {
    trial_id_to_study_number: HashMap<u32, (u32, u32)>,
    study_number_to_trial_id: HashMap<u64, u32>,
}

impl View for TrialIdNumberHashMap {
    type V = Map<u32, Place>;

    closed spec fn view(&self) -> Map<u32, Place> {
        self.trial_id_to_study_number@
    }
}

impl TrialIdNumberHashMap {
    /// The two maps are inverse to each other.
    pub closed spec fn wf(&self) -> bool {
        &&& places_differ(self@)
        &&& forall|t: u32| #[trigger] self@.contains_key(t) ==> {
            &&& self.study_number_to_trial_id@.contains_key(code(self@[t]))
            &&& self.study_number_to_trial_id@[code(self@[t])] == t
        }
        &&& forall|c: u64| #[trigger] self.study_number_to_trial_id@.contains_key(c) ==> {
            let t = self.study_number_to_trial_id@[c];
            self@.contains_key(t) && code(self@[t]) == c
        }
    }

    pub fn new() -> (r: Self)
        ensures
            r@ == Map::<u32, Place>::empty(),
            r.wf(),
    {
        TrialIdNumberHashMap { trial_id_to_study_number: HashMap::new(), study_number_to_trial_id: HashMap::new() }
    }

    /// Adds a trial at a place that is free.
    pub fn insert(&mut self, study_id: u32, trial_id: u32, trial_number: u32)
        requires
            old(self).wf(),
            !old(self)@.contains_key(trial_id),
            !occupied(old(self)@, (study_id, trial_number)),
        ensures
            final(self).wf(),
            final(self)@ == old(self)@.insert(trial_id, (study_id, trial_number)),
    {
        let ghost before = self@;
        let ghost back = self.study_number_to_trial_id@;
        let place: (u32, u32) = (study_id, trial_number);
        self.trial_id_to_study_number.insert(trial_id, place);
        self.study_number_to_trial_id.insert(encode(place), trial_id);
        proof {
            assert forall|t: u32| #[trigger] self@.contains_key(t) implies {
                &&& self.study_number_to_trial_id@.contains_key(code(self@[t]))
                &&& self.study_number_to_trial_id@[code(self@[t])] == t
            } by {
                if t != trial_id {
                    assert(before.contains_key(t));
                    lemma_code(before[t], place);
                }
            }
            assert forall|c: u64| #[trigger] self.study_number_to_trial_id@.contains_key(c) implies {
                let t = self.study_number_to_trial_id@[c];
                self@.contains_key(t) && code(self@[t]) == c
            } by {
                if c != code(place) {
                    assert(back.contains_key(c));
                }
            }
            assert forall|t: u32, u: u32| #[trigger] self@.contains_key(t) && #[trigger] self@.contains_key(u) && self@[t] == self@[u]
                implies t == u by {
                if t != trial_id {
                    assert(before.contains_key(t));
                }
                if u != trial_id {
                    assert(before.contains_key(u));
                }
            }
        }
    }

    pub fn contains_trial_id(&self, trial_id: u32) -> (r: bool)
        ensures
            r == self@.contains_key(trial_id),
    {
        self.trial_id_to_study_number.contains_key(&trial_id)
    }

    pub fn get_study_id_trial_number(&self, trial_id: u32) -> (r: Option<(u32, u32)>)
        ensures
            r is Some == self@.contains_key(trial_id),
            r is Some ==> r->Some_0 == self@[trial_id],
    {
        match self.trial_id_to_study_number.get(&trial_id) {
            Some(place) => Some(*place),
            None => None,
        }
    }

    pub fn get_trial_id(&self, study_id: u32, trial_number: u32) -> (r: Option<u32>)
        requires
            self.wf(),
        ensures
            r is Some == occupied(self@, (study_id, trial_number)),
            r is Some ==> self@.contains_key(r->Some_0) && self@[r->Some_0] == (study_id, trial_number),
            places_differ(self@),
    {
        let place: (u32, u32) = (study_id, trial_number);
        let c: u64 = encode(place);
        match self.study_number_to_trial_id.get(&c) {
            Some(t) => {
                proof {
                    lemma_code(self@[*t], place);
                }
                Some(*t)
            }
            None => {
                proof {
                    if occupied(self@, place) {
                        let t = choose|t: u32| #[trigger] self@.contains_key(t) && self@[t] == place;
                        assert(self.study_number_to_trial_id@.contains_key(code(self@[t])));
                    }
                }
                None
            }
        }
    }

    /// Forgets all trials of a study.
    pub fn remove_study(&mut self, study_id: u32)
        requires
            old(self).wf(),
        ensures
            final(self).wf(),
            final(self)@ == without_study(old(self)@, study_id),
    {
        let ghost before = self@;
        let mut kept = TrialIdNumberHashMap::new();
        let mut trial_ids: Vec<u32> = Vec::new();
        for t in it: self.trial_id_to_study_number.keys()
            invariant
                trial_ids@ == it.seq().unref().take(it.index() as int),
                it.seq().unref().to_set() == before.dom(),
                it.seq().no_duplicates(),
                it.index() == it.seq().len() ==> trial_ids@ == it.seq().unref(),
                forall|a: int, b: int| 0 <= a < b < trial_ids@.len() ==> trial_ids@[a] != trial_ids@[b],
        {
            trial_ids.push(*t);
            assert(trial_ids@ =~= it.seq().unref().take(it.index() as int + 1));
            assert(it.index() + 1 == it.seq().len() ==> trial_ids@ =~= it.seq().unref());
            assert forall|a: int, b: int| 0 <= a < b < trial_ids@.len() implies trial_ids@[a] != trial_ids@[b] by {
                assert(it.seq()[a] != it.seq()[b]);
                assert(it.seq().unref()[a] != it.seq().unref()[b]);
            }
        }
        proof {
            assert(trial_ids@.to_set() =~= before.dom());
            assert(trial_ids@.no_duplicates());
        }
        let mut i: usize = 0;
        while i < trial_ids.len()
            invariant
                i <= trial_ids@.len(),
                before == self@,
                self.wf(),
                trial_ids@.to_set() == before.dom(),
                trial_ids@.no_duplicates(),
                kept.wf(),
                forall|t: u32| #[trigger] kept@.contains_key(t) ==> before.contains_key(t) && kept@[t] == before[t] && before[t].0 != study_id,
                forall|t: u32| #[trigger] kept@.contains_key(t) ==> trial_ids@.take(i as int).contains(t),
                forall|j: int| 0 <= j < i && before[#[trigger] trial_ids@[j]].0 != study_id ==> kept@.contains_key(trial_ids@[j]),
            decreases trial_ids@.len() - i,
        {
            let t: u32 = trial_ids[i];
            proof {
                assert(trial_ids@.to_set().contains(t));
                assert(trial_ids@.take(i + 1) =~= trial_ids@.take(i as int).push(t));
                assert(trial_ids@.take(i + 1)[i as int] == t);
                assert(!kept@.contains_key(t)) by {
                    if kept@.contains_key(t) {
                        let j = choose|j: int| 0 <= j < i && trial_ids@.take(i as int)[j] == t;
                        assert(trial_ids@[j] == t);
                    }
                }
                assert forall|u: u32| trial_ids@.take(i as int).contains(u) implies trial_ids@.take(i + 1).contains(u) by {
                    let j = choose|j: int| 0 <= j < i && trial_ids@.take(i as int)[j] == u;
                    assert(trial_ids@.take(i + 1)[j] == u);
                }
            }
            match self.get_study_id_trial_number(t) {
                Some(place) => {
                    if place.0 != study_id {
                        assert(!occupied(kept@, place)) by {
                            if occupied(kept@, place) {
                                let u = choose|u: u32| #[trigger] kept@.contains_key(u) && kept@[u] == place;
                                assert(before.contains_key(u) && before.contains_key(t));
                            }
                        }
                        kept.insert(place.0, t, place.1);
                    }
                }
                None => {}
            }
            i = i + 1;
        }
        proof {
            let goal = without_study(before, study_id);
            assert forall|t: u32| goal.contains_key(t) implies kept@.contains_key(t) by {
                assert(trial_ids@.to_set().contains(t));
                let j = choose|j: int| 0 <= j < trial_ids@.len() && trial_ids@[j] == t;
                assert(kept@.contains_key(trial_ids@[j]));
            }
            assert(kept@ =~= goal);
        }
        *self = kept;
    }
}

} // verus!
