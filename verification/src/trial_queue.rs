//! The queue of trials that wait to be evaluated.

use std::collections::VecDeque;

use vstd::prelude::*;

use crate::error::{fails, Error, ErrorKind, Result};

verus! {

/// Trial ids, first in, first out.
pub struct InMemoryTrialQueue {
    ids: VecDeque<u32>,
}

impl View for InMemoryTrialQueue {
    type V = Seq<u32>;

    closed spec fn view(&self) -> Seq<u32> {
        self.ids@
    }
}

impl InMemoryTrialQueue {
    pub fn new() -> (r: InMemoryTrialQueue)
        ensures
            r@.len() == 0,
    {
        InMemoryTrialQueue { ids: VecDeque::new() }
    }

    pub fn enqueue(&mut self, trial_id: u32)
        ensures
            final(self)@ == old(self)@.push(trial_id),
    {
        self.ids.push_back(trial_id);
    }

    pub fn dequeue(&mut self) -> (r: Result<u32>)
        ensures
            old(self)@.len() == 0 ==> fails(r, ErrorKind::TrialQueueEmpty) && final(self)@ == old(self)@,
            old(self)@.len() > 0 ==> r is Ok && r->Ok_0 == old(self)@[0] && final(self)@ == old(self)@.skip(1),
    {
        match self.ids.pop_front() {
            Some(trial_id) => {
                assert(self@ =~= old(self)@.skip(1));
                Ok(trial_id)
            }
            None => Err(Error::new(ErrorKind::TrialQueueEmpty)),
        }
    }
}

} // verus!
