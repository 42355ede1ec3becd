use vstd::prelude::*;

verus! {

/// How many times a step may repeat.
#[derive(Debug, Clone, Copy)]
pub enum RegexRep {
    /// As many times as possible, never giving anything back on its own.
    Any,
    /// Exactly this many times.
    Exact(usize),
    /// Between `min` and `max` times (each bound optional), greedy.
    Range { min: Option<usize>, max: Option<usize> },
}

} // verus!
