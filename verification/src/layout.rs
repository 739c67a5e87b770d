use vstd::prelude::*;

verus! {

/// Which event a hand's velocity is taken from.
#[derive(Clone, Copy, Debug, PartialEq, Eq)]
pub enum VelocityRefSource {
    Throw,
    Catch,
    SoftCatch,
}

} // verus!
