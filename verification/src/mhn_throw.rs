use vstd::prelude::*;

verus! {

/// The index of the right hand in a juggler's pair of hands.
pub const RIGHT_HAND: usize = 0;

/// The index of the left hand.
pub const LEFT_HAND: usize = 1;

/// Where a throw stands in the juggling matrix: juggler, hand, beat and slot.
#[derive(Clone, Copy, Debug, PartialEq, Eq)]
pub struct MhnThrowRef {
    pub juggler: usize,
    pub hand: usize,
    pub index: isize,
    pub slot: usize,
}

/// A throw a path comes from or goes to: one in the matrix, or one outside it.
#[derive(Clone, Copy, Debug, PartialEq, Eq)]
pub enum MhnThrowLink {
    Matrix(MhnThrowRef),
    External(usize),
}

} // verus!
