use vstd::prelude::*;
use crate::animation::TransitionKind;
use crate::text::{chars_of, split_on, split_chars, trim, trim_chars, parsed_usize, parse_usize, lower_all, to_ascii_lowercase, is_text};

verus! {

/// A hand, as the ladder diagram shows it.
#[derive(Clone, Copy, Debug, PartialEq, Eq, PartialOrd, Ord)]
pub enum LadderHand {
    Left,
    Right,
}

/// One vertical track of the ladder diagram: a hand of a juggler.
#[derive(Clone, Debug, PartialEq, Eq)]
pub struct LadderTrack {
    pub index: usize,
    pub juggler: usize,
    pub hand: LadderHand,
    pub label: String,
}

/// What an event of the ladder does with one path.
#[derive(Clone, Debug, PartialEq)]
pub struct LadderEventTransition {
    pub path: usize,
    pub transition: TransitionKind,
    pub throw_type: Option<String>,
    pub throw_mod: Option<String>,
}

/// The left hand comes first.
pub fn hand_order(hand: LadderHand) -> (r: usize)
    ensures
        r == (if hand is Left { 0usize } else { 1usize }),
{
    match hand {
        LadderHand::Left => 0,
        LadderHand::Right => 1,
    }
}

impl LadderHand {
    /// `L` or `R`.
    pub fn short_label(self) -> (r: &'static str)
        ensures
            r@ == (if self is Left { "L"@ } else { "R"@ }),
    {
        match self {
            LadderHand::Left => "L",
            LadderHand::Right => "R",
        }
    }

    /// `left` or `right`.
    pub fn long_label(self) -> (r: &'static str)
        ensures
            r@ == (if self is Left { "left"@ } else { "right"@ }),
    {
        match self {
            LadderHand::Left => "left",
            LadderHand::Right => "right",
        }
    }
}

impl LadderEventTransition {
    /// A throw or a catch of any kind, not a hold.
    pub fn is_throw_or_catch(&self) -> (r: bool)
        ensures
            r == !(self.transition is Holding),
    {
        match self.transition {
            TransitionKind::Holding => false,
            _ => true,
        }
    }
}

/// The name of a transition as the ladder diagram writes it.
pub open spec fn transition_name(kind: TransitionKind) -> Seq<char> {
    match kind {
        TransitionKind::Throw => "throw"@,
        TransitionKind::Catch => "catch"@,
        TransitionKind::SoftCatch => "soft catch"@,
        TransitionKind::GrabCatch => "grab catch"@,
        TransitionKind::Holding => "holding"@,
    }
}

pub fn transition_label(kind: TransitionKind) -> (r: &'static str)
    ensures
        r@ == transition_name(kind),
{
    match kind {
        TransitionKind::Throw => "throw",
        TransitionKind::Catch => "catch",
        TransitionKind::SoftCatch => "soft catch",
        TransitionKind::GrabCatch => "grab catch",
        TransitionKind::Holding => "holding",
    }
}

/// An event's hand written `juggler:hand`: the juggler (1 where it is missing, unreadable or
/// 0) and the left hand for `left` in any case, the right hand otherwise.
pub open spec fn event_hand(value: Seq<char>) -> (usize, LadderHand) {
    let parts = split_on(value, ':');
    let juggler: usize = match parsed_usize(trim(parts[0])) {
        Some(j) => if j >= 1 {
            j
        } else {
            1
        },
        None => 1,
    };
    let name = if parts.len() >= 2 {
        parts[1]
    } else {
        "right"@
    };
    (juggler, if lower_all(trim(name)) == "left"@ {
        LadderHand::Left
    } else {
        LadderHand::Right
    })
}

pub fn parse_event_hand(value: &str) -> (r: (usize, LadderHand))
    ensures
        r == event_hand(value@),
{
    let text = chars_of(value);
    let parts = split_chars(&text, ':');
    proof {
        crate::text::lemma_split_on_len(text@, ':');
    }
    assert(parts@[0]@ == split_on(value@, ':')[0]);
    let first = trim_chars(&parts[0]);
    let juggler: usize = match parse_usize(&first) {
        Some(j) => if j >= 1 {
            j
        } else {
            1
        },
        None => 1,
    };
    let hand = if parts.len() >= 2 {
        assert(parts@[1]@ == split_on(value@, ':')[1]);
        let name = trim_chars(&parts[1]);
        let low = to_ascii_lowercase(&name);
        if is_text(&low, "left") {
            LadderHand::Left
        } else {
            LadderHand::Right
        }
    } else {
        proof {
            reveal_strlit("right");
            reveal_strlit("left");
            let r = "right"@;
            assert(!crate::text::is_ws(r[0]) && !crate::text::is_ws(r.last()));
            assert(lower_all(trim(r)).len() == 5);
        }
        LadderHand::Right
    };
    (juggler, hand)
}

} // verus!
