use vstd::prelude::*;
use crate::mhn_throw::{LEFT_HAND, RIGHT_HAND};
use crate::siteswap::{other_hand, opposite_siteswap_hand, Hand, ThrowSpec, ThrowModel};

verus! {

pub fn opposite_hand(hand: Hand) -> (r: Hand)
    ensures
        r == other_hand(hand),
{
    opposite_siteswap_hand(hand)
}

/// The index of a hand: `RIGHT_HAND` or `LEFT_HAND`.
pub fn hand_to_index(hand: Hand) -> (r: usize)
    ensures
        r == (match hand {
            Hand::Right => RIGHT_HAND,
            Hand::Left => LEFT_HAND,
        }),
{
    match hand {
        Hand::Right => RIGHT_HAND,
        Hand::Left => LEFT_HAND,
    }
}

/// The modifier a throw gets: its own, or else `T` (toss), except that a juggler's throw to
/// the same hand is `H` (hold) up to value 1 and `?` at value 2.
pub open spec fn default_modifier(t: ThrowModel, source_hand: Hand, target: Hand) -> Seq<char> {
    match t.modifier {
        Some(m) => m,
        None => if t.source_juggler == t.target_juggler && source_hand == target {
            if t.value <= 1 {
                "H"@
            } else if t.value == 2 {
                "?"@
            } else {
                "T"@
            }
        } else {
            "T"@
        },
    }
}

pub fn default_throw_mod(throw: &ThrowSpec, source_hand: Hand, target: Hand) -> (r: Option<String>)
    ensures
        r matches Some(m) && m@ == default_modifier(throw@, source_hand, target),
{
    if let Some(modifier) = &throw.modifier {
        return Some(modifier.clone());
    }
    let mut throw_mod = "T";
    if throw.source_juggler == throw.target_juggler && source_hand == target {
        if throw.value <= 1 {
            throw_mod = "H";
        } else if throw.value == 2 {
            throw_mod = "?";
        }
    }
    Some(throw_mod.to_owned())
}

/// A juggler number wrapped into `1..=n`; 1 when there are no jugglers or the number is 0.
pub open spec fn wrapped_juggler(juggler: usize, n: usize) -> usize {
    if n == 0 || juggler == 0 {
        1
    } else {
        (1 + (juggler - 1) % (n as int)) as usize
    }
}

pub fn wrap_juggler(juggler: usize, number_of_jugglers: usize) -> (r: usize)
    ensures
        r == wrapped_juggler(juggler, number_of_jugglers),
{
    if number_of_jugglers == 0 {
        return 1;
    }
    if juggler == 0 {
        return 1;
    }
    1 + (juggler - 1) % number_of_jugglers
}

/// Marks path `path_num` (counted from 1) as touched; other numbers change nothing.
pub fn mark_path(path_touched: &mut Vec<bool>, path_num: isize)
    ensures
        final(path_touched)@ == (if path_num > 0 && path_num - 1 < old(path_touched)@.len() {
            old(path_touched)@.update(path_num - 1, true)
        } else {
            old(path_touched)@
        }),
{
    if path_num > 0 {
        let index = path_num as usize - 1;
        if index < path_touched.len() {
            path_touched.set(index, true);
        }
    }
}

} // verus!
