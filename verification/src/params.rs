//! Simulation parameters, read-only during a tick.

use vstd::prelude::*;

verus! {

/// Configuration a network is created with.
#[derive(Clone, Copy, Debug)]
pub struct Params {
    /// A section holding more nodes than this is expected to split; the
    /// validator warns about sections still above it after convergence.
    pub max_section_size: usize,
    /// A non-root section holding fewer nodes than this asks to merge into
    /// its parent.
    pub min_section_size: usize,
    /// The age from which a node counts as an adult in capacity projections.
    pub adult_age: u8,
    /// Defensive cap on resolution rounds within one tick; exceeding it is
    /// fatal.
    pub max_rounds_per_tick: u64,
}

impl Params {
    pub fn new(
        max_section_size: usize,
        min_section_size: usize,
        adult_age: u8,
        max_rounds_per_tick: u64,
    ) -> (r: Params)
        ensures
            r.max_section_size == max_section_size,
            r.min_section_size == min_section_size,
            r.adult_age == adult_age,
            r.max_rounds_per_tick == max_rounds_per_tick,
    {
        Params { max_section_size, min_section_size, adult_age, max_rounds_per_tick }
    }
}

} // verus!
