use vstd::prelude::*;

verus! {

/// The kinds of change that the mutator makes to a pattern.
#[derive(Clone, Copy, Debug, PartialEq, Eq)]
pub enum MutationKind {
    EventPosition,
    EventTime,
    PatternTiming,
    AddEvent,
    RemoveEvent,
}

/// The number of each kind, in the order the kinds are listed.
pub open spec fn mutation_index(k: MutationKind) -> usize {
    match k {
        MutationKind::EventPosition => 0,
        MutationKind::EventTime => 1,
        MutationKind::PatternTiming => 2,
        MutationKind::AddEvent => 3,
        MutationKind::RemoveEvent => 4,
    }
}

impl MutationKind {
    pub fn index(self) -> (r: usize)
        ensures
            r == mutation_index(self),
    {
        match self {
            MutationKind::EventPosition => 0,
            MutationKind::EventTime => 1,
            MutationKind::PatternTiming => 2,
            MutationKind::AddEvent => 3,
            MutationKind::RemoveEvent => 4,
        }
    }
}

/// Which kinds of change the mutator may make, and how strong its changes are.
#[derive(Clone, Debug, PartialEq)]
pub struct MutatorOptions {
    pub enabled: [bool; 5],
    pub rate_index: usize,
}

impl Default for MutatorOptions {
    /// Every kind enabled, at the fourth rate.
    fn default() -> (r: Self)
        ensures
            forall|i: int| 0 <= i < 5 ==> r.enabled[i],
            r.rate_index == 3,
    {
        MutatorOptions { enabled: [true, true, true, true, true], rate_index: 3 }
    }
}

} // verus!
