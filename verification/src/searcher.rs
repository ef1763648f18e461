//! The scratch state of a search, kept by the caller and used again from
//! one search to the next.

use vstd::prelude::*;
use crate::candidates::Candidates;
use crate::nearest_queue::NearestQueue;
use crate::seen::Seen;

verus! {

/// What a search works with: the frontier, the nearest features found so
/// far, and the features that it has come across.
#[derive(Clone, Debug)]
pub struct Searcher {
    /// The entries that are still to be expanded.
    pub candidates: Candidates,
    /// The nearest features found, with their distances from the query.
    pub nearest: NearestQueue<u32>,
    /// The features that the search has come across.
    pub seen: Seen,
}

impl Searcher {
    /// The frontier, the queue and the set are in order.
    pub open spec fn wf(&self) -> bool {
        &&& self.candidates.wf()
        &&& self.nearest.wf()
        &&& self.seen.wf()
    }

    /// A searcher that holds nothing.
    pub fn new() -> (s: Self)
        ensures
            s.wf(),
            s.candidates@ == Seq::<(u32, u32)>::empty(),
            s.nearest@ == Seq::<(u32, u32)>::empty(),
            s.seen@ == Set::<u32>::empty(),
    {
        Searcher { candidates: Candidates::new(), nearest: NearestQueue::new(), seen: Seen::new() }
    }

    /// Empties the searcher for a search among `n` features that keeps the `ef` nearest.
    pub fn reset(&mut self, ef: usize, n: usize)
        requires
            old(self).wf(),
            ef > 0,
        ensures
            final(self).wf(),
            final(self).candidates@ == Seq::<(u32, u32)>::empty(),
            final(self).nearest@ == Seq::<(u32, u32)>::empty(),
            final(self).nearest.capacity() == ef,
            final(self).seen@ == Set::<u32>::empty(),
            final(self).seen.room() >= n,
    {
        self.candidates.clear();
        self.nearest.reset(ef);
        self.seen.clear(n);
    }
}

impl Default for Searcher {
    /// A searcher that holds nothing.
    fn default() -> (s: Self)
        ensures
            s.wf(),
            s.candidates@ == Seq::<(u32, u32)>::empty(),
            s.nearest@ == Seq::<(u32, u32)>::empty(),
            s.seen@ == Set::<u32>::empty(),
    {
        Searcher::new()
    }
}

} // verus!
