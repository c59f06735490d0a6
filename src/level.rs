use vstd::prelude::*;
use std::collections::VecDeque;
use crate::run::Run;

verus! {

/// One tier of the tree: its runs, newest first, under a budget of runs and
/// of entries per run.
pub struct Level {
    pub runs: VecDeque<Run>,
    pub max_runs: usize,
    pub max_run_size: usize,
}

/// The maps of a level's runs, newest first.
pub open spec fn level_maps(l: Level) -> Seq<Map<Seq<u8>, Seq<u8>>> {
    l.runs@.map_values(|r: Run| r@)
}

impl Level {
    pub fn new(max_runs: usize, max_run_size: usize) -> (r: Level)
        ensures
            r.runs@.len() == 0,
            r.max_runs == max_runs,
            r.max_run_size == max_run_size,
    {
        Level { runs: VecDeque::new(), max_runs: max_runs, max_run_size: max_run_size }
    }

    /// How many more runs the level can take.
    pub fn remaining(&self) -> (r: usize)
        requires
            self.runs@.len() <= self.max_runs,
        ensures
            r == self.max_runs - self.runs@.len(),
    {
        self.max_runs - self.runs.len()
    }
}

} // verus!
