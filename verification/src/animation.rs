use vstd::prelude::*;
use crate::text::{chars_of, comma_numbers, number_list, split_on};

verus! {

/// What an event does with a path.
#[derive(Clone, Copy, Debug, PartialEq, Eq)]
pub enum TransitionKind {
    Throw,
    Catch,
    SoftCatch,
    GrabCatch,
    Holding,
}

/// What an event of an animation does with one path, with a throw's type and modifier.
#[derive(Clone, Debug, PartialEq)]
pub struct JmlTransition {
    pub path: usize,
    pub kind: TransitionKind,
    pub throw_type: Option<String>,
    pub throw_mod: Option<String>,
}

/// The prop of each of `paths` paths: the numbers of the comma-separated list repeated
/// in turn, or prop 1 for every path when the list holds no number.
pub open spec fn prop_cycle(listed: Seq<usize>, paths: nat) -> Seq<usize> {
    if listed.len() == 0 {
        Seq::new(paths, |i: int| 1usize)
    } else {
        Seq::new(paths, |i: int| listed[i % (listed.len() as int)])
    }
}

pub fn parse_prop_assignment(source: &str, paths: usize) -> (r: Vec<usize>)
    ensures
        r@ == prop_cycle(number_list(split_on(source@, ',')), paths as nat),
{
    let chars = chars_of(source);
    let listed = comma_numbers(&chars);
    let ghost target = prop_cycle(listed@, paths as nat);
    let mut result: Vec<usize> = Vec::new();
    let mut i: usize = 0;
    while i < paths
        invariant
            i <= paths,
            target == prop_cycle(listed@, paths as nat),
            result@ =~= target.take(i as int),
        decreases paths - i,
    {
        let value = if listed.len() == 0 {
            1
        } else {
            listed[i % listed.len()]
        };
        result.push(value);
        assert(target.take(i as int + 1) =~= target.take(i as int).push(value));
        i = i + 1;
    }
    assert(target.take(paths as int) =~= target);
    result
}

} // verus!
