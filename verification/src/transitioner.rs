use vstd::prelude::*;
use crate::text::{
    chars_of, string_from_chars, push_all, split_words, words, views, is_text,
    parsed_usize, parse_usize, split_on, split_chars,
};

use crate::siteswap::{Beat, beat_models, ThrowModel};

verus! {

// ---------------------------------------------------------------------------------------
// The transitioner's arguments: `from-pattern to-pattern` and options.
// ---------------------------------------------------------------------------------------

/// The settings of a transition search.
#[derive(Clone, Debug)]
pub struct TransitionConfig {
    pub pattern_from: String,
    pub pattern_to: String,
    pub target_occupancy: usize,
    pub allow_simultaneous_catches: bool,
    pub allow_clusters: bool,
}

/// Reads the options from position `i` on into (simultaneous throws, simultaneous catches
/// allowed, clusters allowed).
pub open spec fn read_transition_options(
    args: Seq<Seq<char>>,
    i: int,
    occupancy: nat,
    catches: bool,
    clusters: bool,
) -> Result<(nat, bool, bool), Seq<char>>
    decreases args.len() - i,
{
    if i < 0 || i >= args.len() {
        Ok((occupancy, catches, clusters))
    } else {
        let a = args[i];
        if a == "-mf"@ {
            read_transition_options(args, i + 1, occupancy, true, clusters)
        } else if a == "-mc"@ {
            read_transition_options(args, i + 1, occupancy, catches, false)
        } else if a == "-limits"@ {
            read_transition_options(args, i + 1, occupancy, catches, clusters)
        } else if a == "-m"@ {
            if i + 1 >= args.len() || (args[i + 1].len() > 0 && args[i + 1][0] == '-') {
                Err("A simultaneous throw count must follow -m"@)
            } else {
                match parsed_usize(args[i + 1]) {
                    None => Err("Simultaneous throws must be a positive integer"@),
                    Some(v) => if v == 0 {
                        Err("Simultaneous throws must be at least 1"@)
                    } else {
                        read_transition_options(args, i + 2, v as nat, catches, clusters)
                    },
                }
            }
        } else {
            Err("Unrecognized transitioner option: "@ + a)
        }
    }
}

/// What the arguments give: the two patterns and the options, or the error.
pub open spec fn read_transition_arguments(text: Seq<char>) -> Result<
    (Seq<char>, Seq<char>, nat, bool, bool),
    Seq<char>,
> {
    let args = words(text);
    if args.len() < 2 {
        Err("Specify both a from pattern and a to pattern"@)
    } else if args[0] == seq!['-'] {
        Err("The from pattern is required"@)
    } else if args[1] == seq!['-'] {
        Err("The to pattern is required"@)
    } else {
        match read_transition_options(args, 2, 1, false, true) {
            Err(m) => Err(m),
            Ok((occupancy, catches, clusters)) => Ok(
                (args[0], args[1], occupancy, catches, clusters),
            ),
        }
    }
}

impl TransitionConfig {
    /// Reads `from-pattern to-pattern` followed by `-m n` (simultaneous throws), `-mf`
    /// (simultaneous catches allowed), `-mc` (no clusters) and `-limits`.
    pub fn parse(arguments: &str) -> (r: Result<Self, String>)
        ensures
            match read_transition_arguments(arguments@) {
                Ok((from, to, occupancy, catches, clusters)) => r matches Ok(c) && c.pattern_from@
                    == from && c.pattern_to@ == to && c.target_occupancy == occupancy
                    && c.allow_simultaneous_catches == catches && c.allow_clusters == clusters,
                Err(m) => r matches Err(e) && e@ == m,
            },
    {
        let text = chars_of(arguments);
        let args = split_words(&text);
        let ghost a = views(args@);
        if args.len() < 2 {
            return Err("Specify both a from pattern and a to pattern".to_owned());
        }
        assert(a[0] == args@[0]@ && a[1] == args@[1]@);
        if args[0].len() == 1 && args[0][0] == '-' {
            assert(args@[0]@ =~= seq!['-']);
            return Err("The from pattern is required".to_owned());
        }
        assert(a[0] != seq!['-']);
        if args[1].len() == 1 && args[1][0] == '-' {
            assert(args@[1]@ =~= seq!['-']);
            return Err("The to pattern is required".to_owned());
        }
        assert(a[1] != seq!['-']);
        let mut occupancy: usize = 1;
        let mut catches = false;
        let mut clusters = true;
        let mut index: usize = 2;
        while index < args.len()
            invariant
                a == views(args@),
                index >= 2,
                read_transition_options(a, 2, 1, false, true) == read_transition_options(
                    a,
                    index as int,
                    occupancy as nat,
                    catches,
                    clusters,
                ),
                a == words(arguments@),
                args.len() >= 2,
                a[0] != seq!['-'],
                a[1] != seq!['-'],
            decreases args.len() - index,
        {
            let w = &args[index];
            assert(a[index as int] == w@);
            if is_text(w, "-mf") {
                catches = true;
                index = index + 1;
            } else if is_text(w, "-mc") {
                clusters = false;
                index = index + 1;
            } else if is_text(w, "-limits") {
                index = index + 1;
            } else if is_text(w, "-m") {
                if index + 1 >= args.len() || (args[index + 1].len() > 0 && args[index + 1][0]
                    == '-') {
                    return Err("A simultaneous throw count must follow -m".to_owned());
                }
                assert(a[index + 1] == args@[index + 1]@);
                match parse_usize(&args[index + 1]) {
                    None => {
                        return Err("Simultaneous throws must be a positive integer".to_owned());
                    },
                    Some(v) => {
                        if v == 0 {
                            return Err("Simultaneous throws must be at least 1".to_owned());
                        }
                        occupancy = v;
                    },
                }
                index = index + 2;
            } else {
                let mut msg = chars_of("Unrecognized transitioner option: ");
                push_all(&mut msg, w);
                return Err(string_from_chars(&msg));
            }
        }
        let from = string_from_chars(&args[0]);
        let to = string_from_chars(&args[1]);
        Ok(
            Self {
                pattern_from: from,
                pattern_to: to,
                target_occupancy: occupancy,
                allow_simultaneous_catches: catches,
                allow_clusters: clusters,
            },
        )
    }
}

// ---------------------------------------------------------------------------------------
// Writing transitions.
// ---------------------------------------------------------------------------------------

/// The digit (base 36, lower case) that writes a throw value, 35 at most.
pub open spec fn value_digit(value: nat) -> char {
    let v = if value > 35 {
        35
    } else {
        value
    };
    if v < 10 {
        (('0' as int) + v) as char
    } else {
        (('a' as int) + v - 10) as char
    }
}

pub fn digit_for_value(value: usize) -> (r: char)
    ensures
        r == value_digit(value as nat),
{
    let v: usize = if value > 35 { 35 } else { value };
    if v < 10 {
        ((48 + v) as u8) as char
    } else {
        ((97 + v - 10) as u8) as char
    }
}

/// The text without its `\n` characters.
pub open spec fn without_newlines(s: Seq<char>) -> Seq<char>
    decreases s.len(),
{
    if s.len() == 0 {
        s
    } else if s.last() == '\n' {
        without_newlines(s.drop_last())
    } else {
        without_newlines(s.drop_last()).push(s.last())
    }
}

/// The last position of `c` in `s`, or -1.
pub open spec fn last_index_of(s: Seq<char>, c: char) -> int
    decreases s.len(),
{
    if s.len() == 0 {
        -1
    } else if s.last() == c {
        s.len() - 1
    } else {
        last_index_of(s.drop_last(), c)
    }
}

/// Every piece is `R`.
pub open spec fn all_resets(pieces: Seq<Seq<char>>) -> bool {
    forall|i: int| 0 <= i < pieces.len() ==> #[trigger] pieces[i] == seq!['R']
}

/// A transition without the hands reset (`R`, or `<R|R|...>` for several jugglers) that
/// ends it, and without line breaks.
pub open spec fn stripped_transition(t: Seq<char>) -> Seq<char> {
    let t1 = without_newlines(t);
    let t2 = if t1.len() > 0 && t1.last() == 'R' {
        t1.drop_last()
    } else {
        t1
    };
    if t2.len() > 0 && t2.last() == '>' && last_index_of(t2, '<') >= 0 {
        let start = last_index_of(t2, '<');
        let modifier = t2.subrange(start + 1, t2.len() - 1);
        if modifier.len() > 0 && all_resets(split_on(modifier, '|')) {
            t2.subrange(0, start)
        } else {
            t2
        }
    } else {
        t2
    }
}

proof fn lemma_last_index_of(s: Seq<char>, c: char)
    ensures
        -1 <= last_index_of(s, c) < s.len(),
        last_index_of(s, c) >= 0 ==> s[last_index_of(s, c)] == c,
    decreases s.len(),
{
    if s.len() > 0 && s.last() != c {
        lemma_last_index_of(s.drop_last(), c);
    }
}

/// Takes out the hands reset that ends a transition (see `stripped_transition`).
pub fn strip_final_hands_modifier(transition: String) -> (r: String)
    ensures
        r@ == stripped_transition(transition@),
{
    let chars = chars_of(transition.as_str());
    let mut t: Vec<char> = Vec::new();
    let mut i: usize = 0;
    while i < chars.len()
        invariant
            i <= chars.len(),
            t@ == without_newlines(chars@.take(i as int)),
        decreases chars.len() - i,
    {
        assert(chars@.take(i as int + 1).drop_last() =~= chars@.take(i as int));
        if chars[i] != '\n' {
            t.push(chars[i]);
        }
        i = i + 1;
    }
    assert(chars@.take(chars.len() as int) =~= chars@);
    if t.len() > 0 && t[t.len() - 1] == 'R' {
        t.pop();
    }
    let ghost t2 = t@;
    if t.len() > 0 && t[t.len() - 1] == '>' {
        let mut k = t.len();
        assert(t2.take(k as int) =~= t2);
        while k > 0 && t[k - 1] != '<'
            invariant
                k <= t.len(),
                t@ == t2,
                last_index_of(t2, '<') == last_index_of(t2.take(k as int), '<'),
            decreases k,
        {
            assert(t2.take(k as int).drop_last() =~= t2.take(k as int - 1));
            k = k - 1;
        }
        if k > 0 {
            let start = k - 1;
            proof {
                assert(t2.take(k as int).last() == '<');
                assert(last_index_of(t2, '<') == start);
            }
            let modifier = slice_of_chars(&t, start + 1, t.len() - 1);
            if modifier.len() > 0 {
                let pieces = split_chars(&modifier, '|');
                let mut all = true;
                let mut j: usize = 0;
                while j < pieces.len()
                    invariant
                        j <= pieces.len(),
                        all == forall|q: int| 0 <= q < j ==> #[trigger] views(pieces@)[q] == seq!['R'],
                    decreases pieces.len() - j,
                {
                    let is_r = pieces[j].len() == 1 && pieces[j][0] == 'R';
                    proof {
                        if is_r {
                            assert(pieces@[j as int]@ =~= seq!['R']);
                        }
                        assert(views(pieces@)[j as int] == pieces@[j as int]@);
                    }
                    if !is_r {
                        all = false;
                    }
                    j = j + 1;
                }
                if all {
                    t.truncate(start);
                    assert(t@ =~= t2.subrange(0, start as int));
                }
            }
        } else {
            proof {
                assert(t2.take(0) =~= Seq::<char>::empty());
            }
        }
    }
    string_from_chars(&t)
}

fn slice_of_chars(v: &Vec<char>, lo: usize, hi: usize) -> (r: Vec<char>)
    requires
        lo <= hi <= v.len(),
    ensures
        r@ == v@.subrange(lo as int, hi as int),
{
    crate::text::slice_of(v, lo, hi)
}

// ---------------------------------------------------------------------------------------
// States of a transition search: how many objects each hand of each juggler holds at each
// future beat.
// ---------------------------------------------------------------------------------------

/// A state is shaped: `jugglers` rows of two hands of `indexes` entries.
pub open spec fn state_shaped(s: Seq<Vec<Vec<usize>>>, jugglers: nat, indexes: nat) -> bool {
    &&& s.len() == jugglers
    &&& forall|j: int| 0 <= j < jugglers ==> (#[trigger] s[j]).len() == 2
    &&& forall|j: int, h: int| 0 <= j < jugglers && 0 <= h < 2 ==> (#[trigger] s[j]@[h]).len() == indexes
}

pub open spec fn cell(s: Seq<Vec<Vec<usize>>>, j: int, h: int, i: int) -> usize {
    s[j]@[h]@[i]
}

/// The empty state.
pub fn empty_state(jugglers: usize, indexes: usize) -> (r: Vec<Vec<Vec<usize>>>)
    ensures
        state_shaped(r@, jugglers as nat, indexes as nat),
        forall|j: int, h: int, i: int|
            0 <= j < jugglers && 0 <= h < 2 && 0 <= i < indexes ==> #[trigger] cell(r@, j, h, i)
                == 0,
{
    let mut r: Vec<Vec<Vec<usize>>> = Vec::new();
    let mut j: usize = 0;
    while j < jugglers
        invariant
            j <= jugglers,
            r.len() == j,
            forall|a: int| 0 <= a < j ==> (#[trigger] r@[a]).len() == 2,
            forall|a: int, h: int| 0 <= a < j && 0 <= h < 2 ==> (#[trigger] r@[a]@[h]).len() == indexes,
            forall|a: int, h: int, i: int|
                0 <= a < j && 0 <= h < 2 && 0 <= i < indexes ==> #[trigger] cell(r@, a, h, i) == 0,
        decreases jugglers - j,
    {
        let mut hands: Vec<Vec<usize>> = Vec::new();
        let mut h: usize = 0;
        while h < 2
            invariant
                h <= 2,
                hands.len() == h,
                forall|b: int| 0 <= b < h ==> (#[trigger] hands@[b]).len() == indexes,
                forall|b: int, i: int| 0 <= b < h && 0 <= i < indexes ==> #[trigger] hands@[b]@[i] == 0,
            decreases 2 - h,
        {
            let mut row: Vec<usize> = Vec::new();
            let mut i: usize = 0;
            while i < indexes
                invariant
                    i <= indexes,
                    row.len() == i,
                    forall|c: int| 0 <= c < i ==> row@[c] == 0,
                decreases indexes - i,
            {
                row.push(0);
                i = i + 1;
            }
            hands.push(row);
            h = h + 1;
        }
        let ghost before = r@;
        let ghost hv = hands@;
        r.push(hands);
        assert forall|a: int, h: int, i: int|
            0 <= a < j + 1 && 0 <= h < 2 && 0 <= i < indexes implies #[trigger] cell(r@, a, h, i) == 0 by {
            if a < j {
                assert(r@[a] == before[a]);
                assert(cell(before, a, h, i) == 0);
            } else {
                assert(r@[a]@ == hv);
                assert(hv[h]@[i] == 0);
            }
        }
        j = j + 1;
    }
    r
}

/// `from`, moved on `length` beats, fits under `to`: no hand holds more than `to` holds.
pub open spec fn fits_after(
    from: Seq<Vec<Vec<usize>>>,
    to: Seq<Vec<Vec<usize>>>,
    jugglers: nat,
    indexes: nat,
    length: nat,
) -> bool {
    forall|j: int, h: int, i: int|
        0 <= j < jugglers && 0 <= h < 2 && 0 <= i && i + length < indexes ==> #[trigger] cell(
            from,
            j,
            h,
            i + length,
        ) <= cell(to, j, h, i)
}

fn fits_after_exec(
    from: &Vec<Vec<Vec<usize>>>,
    to: &Vec<Vec<Vec<usize>>>,
    jugglers: usize,
    indexes: usize,
    length: usize,
) -> (r: bool)
    requires
        state_shaped(from@, jugglers as nat, indexes as nat),
        state_shaped(to@, jugglers as nat, indexes as nat),
    ensures
        r == fits_after(from@, to@, jugglers as nat, indexes as nat, length as nat),
{
    let limit: usize = if length < indexes { indexes - length } else { 0 };
    let mut j: usize = 0;
    while j < jugglers
        invariant
            state_shaped(from@, jugglers as nat, indexes as nat),
            state_shaped(to@, jugglers as nat, indexes as nat),
            limit == (if length < indexes { indexes - length } else { 0 }),
            j <= jugglers,
            forall|a: int, h: int, i: int|
                0 <= a < j && 0 <= h < 2 && 0 <= i && i + length < indexes ==> #[trigger] cell(
                    from@,
                    a,
                    h,
                    i + length,
                ) <= cell(to@, a, h, i),
        decreases jugglers - j,
    {
        let mut h: usize = 0;
        while h < 2
            invariant
                state_shaped(from@, jugglers as nat, indexes as nat),
                state_shaped(to@, jugglers as nat, indexes as nat),
                limit == (if length < indexes { indexes - length } else { 0 }),
                j < jugglers,
                h <= 2,
                forall|a: int, h2: int, i: int|
                    0 <= a < j && 0 <= h2 < 2 && 0 <= i && i + length < indexes ==> #[trigger] cell(
                        from@,
                        a,
                        h2,
                        i + length,
                    ) <= cell(to@, a, h2, i),
                forall|h2: int, i: int|
                    0 <= h2 < h && 0 <= i && i + length < indexes ==> #[trigger] cell(
                        from@,
                        j as int,
                        h2,
                        i + length,
                    ) <= cell(to@, j as int, h2, i),
            decreases 2 - h,
        {
            let mut i: usize = 0;
            while i < limit
                invariant
                    state_shaped(from@, jugglers as nat, indexes as nat),
                    state_shaped(to@, jugglers as nat, indexes as nat),
                    limit == (if length < indexes { indexes - length } else { 0 }),
                    j < jugglers,
                    h < 2,
                    i <= limit,
                    forall|a: int, h2: int, i2: int|
                        0 <= a < j && 0 <= h2 < 2 && 0 <= i2 && i2 + length < indexes
                            ==> #[trigger] cell(from@, a, h2, i2 + length) <= cell(to@, a, h2, i2),
                    forall|h2: int, i2: int|
                        0 <= h2 < h && 0 <= i2 && i2 + length < indexes ==> #[trigger] cell(
                            from@,
                            j as int,
                            h2,
                            i2 + length,
                        ) <= cell(to@, j as int, h2, i2),
                    forall|i2: int|
                        0 <= i2 < i ==> #[trigger] cell(from@, j as int, h as int, i2 + length)
                            <= cell(to@, j as int, h as int, i2),
                decreases limit - i,
            {
                let x = from[j][h][i + length];
                let y = to[j][h][i];
                assert(x == cell(from@, j as int, h as int, i as int + length));
                assert(y == cell(to@, j as int, h as int, i as int));
                if x > y {
                    return false;
                }
                i = i + 1;
            }
            h = h + 1;
        }
        j = j + 1;
    }
    true
}

/// The fewest beats after which `from` fits under `to` (see `fits_after`).
pub fn find_min_length(
    from: &Vec<Vec<Vec<usize>>>,
    to: &Vec<Vec<Vec<usize>>>,
    jugglers: usize,
    indexes: usize,
) -> (r: usize)
    requires
        state_shaped(from@, jugglers as nat, indexes as nat),
        state_shaped(to@, jugglers as nat, indexes as nat),
    ensures
        fits_after(from@, to@, jugglers as nat, indexes as nat, r as nat),
        forall|l: nat| l < r ==> !fits_after(from@, to@, jugglers as nat, indexes as nat, l),
{
    let mut length: usize = 0;
    while !fits_after_exec(from, to, jugglers, indexes, length)
        invariant
            state_shaped(from@, jugglers as nat, indexes as nat),
            state_shaped(to@, jugglers as nat, indexes as nat),
            length <= indexes,
            forall|l: nat| l < length ==> !fits_after(from@, to@, jugglers as nat, indexes as nat, l),
        decreases indexes - length,
    {
        assert(length < indexes) by {
            if length >= indexes {
                assert(fits_after(from@, to@, jugglers as nat, indexes as nat, length as nat));
            }
        }
        length = length + 1;
    }
    length
}

/// Whether some hand holds an object at position `i`.
pub open spec fn filled_at(s: Seq<Vec<Vec<usize>>>, jugglers: nat, i: int) -> bool {
    exists|j: int, h: int| 0 <= j < jugglers && 0 <= h < 2 && #[trigger] cell(s, j, h, i) > 0
}

fn filled_at_exec(s: &Vec<Vec<Vec<usize>>>, jugglers: usize, indexes: usize, i: usize) -> (r: bool)
    requires
        state_shaped(s@, jugglers as nat, indexes as nat),
        i < indexes,
    ensures
        r == filled_at(s@, jugglers as nat, i as int),
{
    let mut j: usize = 0;
    while j < jugglers
        invariant
            state_shaped(s@, jugglers as nat, indexes as nat),
            i < indexes,
            j <= jugglers,
            forall|a: int, h: int| 0 <= a < j && 0 <= h < 2 ==> #[trigger] cell(s@, a, h, i as int) == 0,
        decreases jugglers - j,
    {
        if s[j][0][i] > 0 {
            assert(cell(s@, j as int, 0, i as int) > 0);
            return true;
        }
        if s[j][1][i] > 0 {
            assert(cell(s@, j as int, 1, i as int) > 0);
            return true;
        }
        j = j + 1;
    }
    false
}

/// One more than the highest filled position, or 0 when nothing is held.
pub fn find_max_length(from: &Vec<Vec<Vec<usize>>>, jugglers: usize, indexes: usize) -> (r: usize)
    requires
        state_shaped(from@, jugglers as nat, indexes as nat),
    ensures
        r <= indexes,
        r > 0 ==> filled_at(from@, jugglers as nat, r - 1),
        forall|i: int| r <= i < indexes ==> !filled_at(from@, jugglers as nat, i),
{
    let mut length: usize = 0;
    let mut index: usize = 0;
    while index < indexes
        invariant
            state_shaped(from@, jugglers as nat, indexes as nat),
            index <= indexes,
            length <= index,
            length > 0 ==> filled_at(from@, jugglers as nat, length - 1),
            forall|i: int| length <= i < index ==> !filled_at(from@, jugglers as nat, i),
        decreases indexes - index,
    {
        if filled_at_exec(from, jugglers, indexes, index) {
            length = index + 1;
        }
        index = index + 1;
    }
    length
}

/// The highest filled position, or 0 when nothing is held.
pub fn max_filled_index(state: &Vec<Vec<Vec<usize>>>, jugglers: usize, indexes: usize) -> (r: usize)
    requires
        state_shaped(state@, jugglers as nat, indexes as nat),
    ensures
        r < indexes || (r == 0 && indexes == 0),
        filled_at(state@, jugglers as nat, r as int) || r == 0,
        forall|i: int| r < i < indexes ==> !filled_at(state@, jugglers as nat, i),
{
    let mut index = indexes;
    while index > 0
        invariant
            state_shaped(state@, jugglers as nat, indexes as nat),
            index <= indexes,
            forall|i: int| index <= i < indexes ==> !filled_at(state@, jugglers as nat, i),
        decreases index,
    {
        if filled_at_exec(state, jugglers, indexes, index - 1) {
            return index - 1;
        }
        index = index - 1;
    }
    0
}

/// Whether a pattern fixes some throw's hand (an `L` or `R`, a synchronous pair, or a
/// switch-repeat).
pub open spec fn fixes_a_hand(beats: Seq<Seq<ThrowModel>>) -> bool {
    exists|i: int, k: int| 0 <= i < beats.len() && 0 <= k < beats[i].len() && #[trigger] beats[i][k].hand_fixed
}

pub fn has_hands_specifier(beats: &Vec<Beat>) -> (r: bool)
    ensures
        r == fixes_a_hand(beat_models(beats@)),
{
    let ghost m = beat_models(beats@);
    let mut i: usize = 0;
    while i < beats.len()
        invariant
            i <= beats.len(),
            m == beat_models(beats@),
            forall|a: int, k: int| 0 <= a < i && 0 <= k < m[a].len() ==> !(#[trigger] m[a][k]).hand_fixed,
        decreases beats.len() - i,
    {
        let throws = &beats[i].throws;
        assert(m[i as int] == crate::siteswap::throw_models(throws@));
        let mut k: usize = 0;
        while k < throws.len()
            invariant
                i < beats.len(),
                k <= throws.len(),
                m == beat_models(beats@),
                throws@ == beats@[i as int].throws@,
                m[i as int] == crate::siteswap::throw_models(throws@),
                forall|a: int, q: int| 0 <= a < i && 0 <= q < m[a].len() ==> !(#[trigger] m[a][q]).hand_fixed,
                forall|q: int| 0 <= q < k ==> !(#[trigger] m[i as int][q]).hand_fixed,
            decreases throws.len() - k,
        {
            assert(m[i as int][k as int] == throws@[k as int]@);
            if throws[k].hand_fixed {
                assert(m[i as int][k as int].hand_fixed);
                return true;
            }
            k = k + 1;
        }
        i = i + 1;
    }
    false
}

} // verus!
