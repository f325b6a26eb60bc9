use vstd::prelude::*;

verus! {

/// Counters of the search.
#[derive(Clone, Copy, Debug)]
pub struct Stats {
    pub num_decisions: u64,
    pub num_conflicts: u64,
    pub num_restarts: u64,
}

impl Default for Stats {
    fn default() -> (s: Stats)
        ensures
            s.num_decisions == 0,
            s.num_conflicts == 0,
            s.num_restarts == 0,
    {
        Stats { num_decisions: 0, num_conflicts: 0, num_restarts: 0 }
    }
}

} // verus!
