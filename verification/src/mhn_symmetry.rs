use vstd::prelude::*;
use crate::permutation::{
    Permutation, MAX_PERMUTATION_SIZE, text_refused, text_accepted, text_images,
};

verus! {

/// The kinds of symmetry of a pattern in multi-hand notation.
#[derive(Clone, Copy, Debug, PartialEq, Eq)]
pub enum MhnSymmetryType {
    Delay,
    Switch,
    SwitchDelay,
}

/// A symmetry of a pattern: its kind, the delay, and how it permutes the jugglers (a
/// juggler marked with `*` swaps hands).
#[derive(Clone, Debug, PartialEq, Eq)]
pub struct MhnSymmetry {
    pub symmetry_type: MhnSymmetryType,
    pub number_of_jugglers: usize,
    pub jug_perm: Option<String>,
    pub delay: isize,
    pub juggler_perm: Permutation,
}

/// The number that stands for each kind of symmetry.
pub open spec fn symmetry_code(t: MhnSymmetryType) -> i32 {
    match t {
        MhnSymmetryType::Delay => 1,
        MhnSymmetryType::Switch => 2,
        MhnSymmetryType::SwitchDelay => 3,
    }
}

impl MhnSymmetry {
    pub const TYPE_DELAY: i32 = 1;
    pub const TYPE_SWITCH: i32 = 2;
    pub const TYPE_SWITCHDELAY: i32 = 3;

    /// A symmetry whose juggler permutation (a reversing one) is read from `jug_perm`, or
    /// is the identity when there is none.
    pub fn new(
        symmetry_type: MhnSymmetryType,
        number_of_jugglers: usize,
        jug_perm: Option<String>,
        delay: isize,
    ) -> (r: Result<Self, String>)
        requires
            number_of_jugglers <= MAX_PERMUTATION_SIZE,
        ensures
            r matches Ok(s) ==> {
                &&& s.symmetry_type == symmetry_type
                &&& s.number_of_jugglers == number_of_jugglers
                &&& s.jug_perm == jug_perm
                &&& s.delay == delay
                &&& s.juggler_perm@.size == number_of_jugglers
                &&& s.juggler_perm@.reverses
                &&& s.juggler_perm@.shaped()
                &&& s.juggler_perm@.app(0) == 0
            },
            jug_perm is None ==> (r matches Ok(s) && forall|e: int|
                #[trigger] s.juggler_perm@.is_elem(e) ==> s.juggler_perm@.app(e) == e),
            jug_perm matches Some(p) ==> {
                &&& text_refused(p@, number_of_jugglers as nat, true) ==> r is Err
                &&& text_accepted(p@, number_of_jugglers as nat, true) ==> r is Ok
                &&& r matches Ok(s) ==> text_images(
                    s.juggler_perm@,
                    p@,
                    number_of_jugglers as nat,
                    true,
                )
            },
    {
        let juggler_perm = match &jug_perm {
            Some(perm) => {
                let parsed = Permutation::parse(number_of_jugglers, perm.as_str(), true);
                match parsed {
                    Ok(p) => p,
                    Err(e) => {
                        return Err(e);
                    },
                }
            },
            None => {
                let p = Permutation::new(number_of_jugglers, true);
                assert(p@.is_elem(0));
                p
            },
        };
        Ok(Self { symmetry_type, number_of_jugglers, jug_perm, delay, juggler_perm })
    }

    /// The number that stands for the kind of symmetry.
    pub fn type_code(&self) -> (r: i32)
        ensures
            r == symmetry_code(self.symmetry_type),
    {
        match self.symmetry_type {
            MhnSymmetryType::Delay => Self::TYPE_DELAY,
            MhnSymmetryType::Switch => Self::TYPE_SWITCH,
            MhnSymmetryType::SwitchDelay => Self::TYPE_SWITCHDELAY,
        }
    }
}

} // verus!
