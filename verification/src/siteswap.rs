use vstd::prelude::*;
use crate::text::{
    chars_of, string_from_chars, push_all, push_str, is_ws, is_whitespace, is_digit, is_lower,
    is_upper, trim, trim_chars, slice_of, parsed_usize, parse_usize, parsed_u32, parse_u32,
    split_on, split_chars, views, index_of_char, index_from, lemma_index_from, find_char, lower_all,
    to_ascii_lowercase, is_text, trim_start, trim_end,
};

verus! {

// ---------------------------------------------------------------------------------------
// The values of a parsed siteswap: hands, throws and beats.
// ---------------------------------------------------------------------------------------

/// The hand a throw is made from.
#[derive(Clone, Copy, Debug, PartialEq, Eq, Structural)]
pub enum Hand {
    Left,
    Right,
}

/// One throw of a siteswap.
#[derive(Clone, Debug, PartialEq)]
pub struct ThrowSpec {
    pub value: u32,
    pub hand: Hand,
    pub cross: bool,
    pub source_juggler: usize,
    pub target_juggler: usize,
    pub modifier: Option<String>,
    pub hand_fixed: bool,
    pub sync: bool,
}

/// The throws made on one beat.
#[derive(Clone, Debug, PartialEq)]
pub struct Beat {
    pub throws: Vec<ThrowSpec>,
}

/// A throw as a mathematical value.
pub ghost struct ThrowModel {
    pub value: u32,
    pub hand: Hand,
    pub cross: bool,
    pub source_juggler: usize,
    pub target_juggler: usize,
    pub modifier: Option<Seq<char>>,
    pub hand_fixed: bool,
    pub sync: bool,
}

pub open spec fn text_option(o: Option<String>) -> Option<Seq<char>> {
    match o {
        Some(s) => Some(s@),
        None => None,
    }
}

impl View for ThrowSpec {
    type V = ThrowModel;

    open spec fn view(&self) -> ThrowModel {
        ThrowModel {
            value: self.value,
            hand: self.hand,
            cross: self.cross,
            source_juggler: self.source_juggler,
            target_juggler: self.target_juggler,
            modifier: text_option(self.modifier),
            hand_fixed: self.hand_fixed,
            sync: self.sync,
        }
    }
}

/// The models of a sequence of throws.
pub open spec fn throw_models(v: Seq<ThrowSpec>) -> Seq<ThrowModel> {
    Seq::new(v.len(), |i: int| v[i]@)
}

/// The models of a sequence of beats: for each beat, its throws.
pub open spec fn beat_models(v: Seq<Beat>) -> Seq<Seq<ThrowModel>> {
    Seq::new(v.len(), |i: int| throw_models(v[i].throws@))
}

/// A copy of a throw.
pub fn copy_throw(t: &ThrowSpec) -> (r: ThrowSpec)
    ensures
        r@ == t@,
{
    let modifier = match &t.modifier {
        Some(m) => Some(m.clone()),
        None => None,
    };
    ThrowSpec {
        value: t.value,
        hand: t.hand,
        cross: t.cross,
        source_juggler: t.source_juggler,
        target_juggler: t.target_juggler,
        modifier,
        hand_fixed: t.hand_fixed,
        sync: t.sync,
    }
}

/// The other hand.
pub open spec fn other_hand(h: Hand) -> Hand {
    match h {
        Hand::Left => Hand::Right,
        Hand::Right => Hand::Left,
    }
}

pub fn opposite_siteswap_hand(hand: Hand) -> (r: Hand)
    ensures
        r == other_hand(hand),
{
    match hand {
        Hand::Left => Hand::Right,
        Hand::Right => Hand::Left,
    }
}

/// The hand that throws on an asynchronous beat: the right hand on even beats when
/// `right_on_even`, the left hand otherwise, alternating.
pub open spec fn async_hand(beat: int, right_on_even: bool) -> Hand {
    if (beat % 2 == 0) == right_on_even {
        Hand::Right
    } else {
        Hand::Left
    }
}

/// The hand of a beat whose number has the given parity (`odd` for odd beat numbers).
pub fn hand_for_async_beat(odd: bool, right_on_even: bool) -> (r: Hand)
    ensures
        forall|beat: int| (beat % 2 == 1) == odd ==> r == #[trigger] async_hand(beat, right_on_even),
{
    let right = if !odd {
        right_on_even
    } else {
        !right_on_even
    };
    if right {
        Hand::Right
    } else {
        Hand::Left
    }
}

/// The hand that catches a throw of `value` made from `start`: odd throws and crossing throws
/// change hands, an odd crossing throw does not.
pub open spec fn catching_hand(start: Hand, value: u32, cross: bool) -> Hand {
    if (value % 2 == 1) != cross {
        other_hand(start)
    } else {
        start
    }
}

pub fn target_hand(start: Hand, value: u32, cross: bool) -> (r: Hand)
    ensures
        r == catching_hand(start, value, cross),
{
    let toggles = (value % 2 == 1) != cross;
    if toggles {
        opposite_siteswap_hand(start)
    } else {
        start
    }
}

// ---------------------------------------------------------------------------------------
// Characters of the notation.
// ---------------------------------------------------------------------------------------

/// The value a single character writes: `0`-`9`, then `a` = 10 up to `z` = 35.
pub open spec fn char_throw_value(c: char) -> Option<u32> {
    if is_digit(c) {
        Some(((c as u32) - ('0' as u32)) as u32)
    } else if is_lower(c) {
        Some(((c as u32) - ('a' as u32) + 10) as u32)
    } else {
        None
    }
}

pub fn throw_value(c: char) -> (r: Option<u32>)
    ensures
        r == char_throw_value(c),
{
    if '0' <= c && c <= '9' {
        Some(c as u32 - '0' as u32)
    } else if 'a' <= c && c <= 'z' {
        Some(c as u32 - 'a' as u32 + 10)
    } else {
        None
    }
}

/// Whether a throw can start with this character: a digit, a lower-case letter or `{`.
pub open spec fn starts_throw(c: char) -> bool {
    is_digit(c) || c == '{' || is_lower(c)
}

pub fn is_throw_value_start(c: char) -> (r: bool)
    ensures
        r == starts_throw(c),
{
    ('0' <= c && c <= '9') || c == '{' || ('a' <= c && c <= 'z')
}

/// Whether a throw modifier can start with this character: an upper-case letter other than
/// the hand letters `L` and `R`.
pub open spec fn starts_modifier(c: char) -> bool {
    is_upper(c) && c != 'L' && c != 'R'
}

pub fn is_modifier_start(c: char) -> (r: bool)
    ensures
        r == starts_modifier(c),
{
    'A' <= c && c <= 'Z' && c != 'L' && c != 'R'
}

// ---------------------------------------------------------------------------------------
// Matching brackets, repeat counts and splitting at the top level of nesting.
// ---------------------------------------------------------------------------------------

/// Where the bracket open at the start of the scan closes: scanning from `pos` with `depth`
/// brackets open, the position at which the count returns to zero.
pub open spec fn closing_position(s: Seq<char>, pos: int, depth: nat, open: char, close: char) -> Option<int>
    decreases s.len() - pos,
{
    if pos < 0 || pos >= s.len() {
        None
    } else if s[pos] == open {
        closing_position(s, pos + 1, depth + 1, open, close)
    } else if s[pos] == close {
        if depth == 0 {
            None
        } else if depth == 1 {
            Some(pos)
        } else {
            closing_position(s, pos + 1, (depth - 1) as nat, open, close)
        }
    } else {
        closing_position(s, pos + 1, depth, open, close)
    }
}

pub proof fn lemma_closing_position(s: Seq<char>, pos: int, depth: nat, open: char, close: char)
    requires
        0 <= pos,
    ensures
        closing_position(s, pos, depth, open, close) matches Some(p) ==> pos <= p < s.len()
            && s[p] == close && (p == pos ==> depth == 1),
    decreases s.len() - pos,
{
    if pos < s.len() {
        if s[pos] == open {
            lemma_closing_position(s, pos + 1, depth + 1, open, close);
        } else if s[pos] == close {
            if depth > 1 {
                lemma_closing_position(s, pos + 1, (depth - 1) as nat, open, close);
            }
        } else {
            lemma_closing_position(s, pos + 1, depth, open, close);
        }
    }
}

/// The position of the bracket that closes the one opened at `open_pos`.
pub fn matching_delimiter(chars: &Vec<char>, open_pos: usize, open: char, close: char) -> (r: Option<usize>)
    requires
        open != close,
    ensures
        match r {
            Some(p) => closing_position(chars@, open_pos as int, 0, open, close) == Some(p as int),
            None => closing_position(chars@, open_pos as int, 0, open, close) is None,
        },
{
    let mut depth: usize = 0;
    let mut pos: usize = open_pos;
    while pos < chars.len()
        invariant
            open_pos <= pos,
            depth <= pos - open_pos,
            closing_position(chars@, open_pos as int, 0, open, close) == closing_position(
                chars@,
                pos as int,
                depth as nat,
                open,
                close,
            ),
        decreases chars.len() - pos,
    {
        let ch = chars[pos];
        if ch == open {
            depth = depth + 1;
        } else if ch == close {
            if depth == 0 {
                return None;
            }
            depth = depth - 1;
            if depth == 0 {
                return Some(pos);
            }
        }
        pos = pos + 1;
    }
    None
}

/// The start of the run of whitespace that ends at `i`.
pub open spec fn back_over_ws(s: Seq<char>, i: int) -> int
    decreases i,
{
    if i > 0 && i <= s.len() && is_ws(s[i - 1]) {
        back_over_ws(s, i - 1)
    } else {
        i
    }
}

/// The start of the run of digits that ends at `i`.
pub open spec fn back_over_digits(s: Seq<char>, i: int) -> int
    decreases i,
{
    if i > 0 && i <= s.len() && is_digit(s[i - 1]) {
        back_over_digits(s, i - 1)
    } else {
        i
    }
}

proof fn lemma_back_over(s: Seq<char>, i: int)
    requires
        0 <= i <= s.len(),
    ensures
        0 <= back_over_ws(s, i) <= i,
        0 <= back_over_digits(s, i) <= i,
        forall|j: int| back_over_digits(s, i) <= j < i ==> is_digit(#[trigger] s[j]),
    decreases i,
{
    if i > 0 {
        lemma_back_over(s, i - 1);
    }
}

/// A group that ends in `^n` (with whitespace allowed around the count): where its body ends
/// and the number of repeats.
pub open spec fn repeat_suffix(s: Seq<char>) -> Option<(int, usize)> {
    let digits_end = back_over_ws(s, s.len() as int);
    let digits_start = back_over_digits(s, digits_end);
    if digits_start == digits_end || digits_start == 0 || s[digits_start - 1] != '^' {
        None
    } else {
        match parsed_usize(s.subrange(digits_start, digits_end)) {
            None => None,
            Some(n) => Some((back_over_ws(s, digits_start - 1), n)),
        }
    }
}

pub proof fn lemma_repeat_suffix(s: Seq<char>)
    ensures
        repeat_suffix(s) matches Some((b, n)) ==> 0 <= b < s.len(),
{
    lemma_back_over(s, s.len() as int);
    let digits_end = back_over_ws(s, s.len() as int);
    lemma_back_over(s, digits_end);
    let digits_start = back_over_digits(s, digits_end);
    if digits_start > 0 {
        lemma_back_over(s, digits_start - 1);
    }
}

pub fn grouped_repeat(chars: &Vec<char>) -> (r: Option<(usize, usize)>)
    ensures
        match r {
            Some((body_end, repeats)) => repeat_suffix(chars@) == Some((body_end as int, repeats))
                && body_end < chars.len(),
            None => repeat_suffix(chars@) is None,
        },
{
    let ghost s = chars@;
    let mut pos: usize = chars.len();
    while pos > 0 && is_whitespace(chars[pos - 1])
        invariant
            pos <= chars.len(),
            s == chars@,
            back_over_ws(s, s.len() as int) == back_over_ws(s, pos as int),
        decreases pos,
    {
        pos = pos - 1;
    }
    let digits_end = pos;
    while pos > 0 && '0' <= chars[pos - 1] && chars[pos - 1] <= '9'
        invariant
            pos <= digits_end,
            s == chars@,
            back_over_digits(s, digits_end as int) == back_over_digits(s, pos as int),
            digits_end <= chars.len(),
        decreases pos,
    {
        pos = pos - 1;
    }
    if pos == digits_end || pos == 0 || chars[pos - 1] != '^' {
        return None;
    }
    let digits = slice_of(chars, pos, digits_end);
    let repeats = match parse_usize(&digits) {
        Some(n) => n,
        None => {
            return None;
        },
    };
    let mut body_end: usize = pos - 1;
    while body_end > 0 && is_whitespace(chars[body_end - 1])
        invariant
            body_end <= pos - 1,
            pos <= chars.len(),
            s == chars@,
            back_over_ws(s, pos - 1) == back_over_ws(s, body_end as int),
        decreases body_end,
    {
        body_end = body_end - 1;
    }
    Some((body_end, repeats))
}

/// The state of a scan that splits at a delimiter outside all brackets: the pieces so far,
/// the piece being read, and the depth of round, square, curly and angle brackets.
pub ghost struct SplitScan {
    pub pieces: Seq<Seq<char>>,
    pub current: Seq<char>,
    pub paren: int,
    pub bracket: int,
    pub brace: int,
    pub angle: int,
}

pub open spec fn split_step(st: SplitScan, c: char, d: char) -> SplitScan {
    if c == '(' {
        SplitScan { paren: st.paren + 1, current: st.current.push(c), ..st }
    } else if c == ')' {
        SplitScan { paren: st.paren - 1, current: st.current.push(c), ..st }
    } else if c == '[' {
        SplitScan { bracket: st.bracket + 1, current: st.current.push(c), ..st }
    } else if c == ']' {
        SplitScan { bracket: st.bracket - 1, current: st.current.push(c), ..st }
    } else if c == '{' {
        SplitScan { brace: st.brace + 1, current: st.current.push(c), ..st }
    } else if c == '}' {
        SplitScan { brace: st.brace - 1, current: st.current.push(c), ..st }
    } else if c == '<' {
        SplitScan { angle: st.angle + 1, current: st.current.push(c), ..st }
    } else if c == '>' {
        SplitScan { angle: st.angle - 1, current: st.current.push(c), ..st }
    } else if c == d && st.paren == 0 && st.bracket == 0 && st.brace == 0 && st.angle == 0 {
        SplitScan { pieces: st.pieces.push(trim(st.current)), current: Seq::empty(), ..st }
    } else {
        SplitScan { current: st.current.push(c), ..st }
    }
}

pub open spec fn split_scan(s: Seq<char>, d: char) -> SplitScan
    decreases s.len(),
{
    if s.len() == 0 {
        SplitScan {
            pieces: Seq::empty(),
            current: Seq::empty(),
            paren: 0,
            bracket: 0,
            brace: 0,
            angle: 0,
        }
    } else {
        split_step(split_scan(s.drop_last(), d), s.last(), d)
    }
}

/// The pieces of `s` between the delimiters that stand outside all brackets, each trimmed.
pub open spec fn split_top(s: Seq<char>, d: char) -> Seq<Seq<char>> {
    let st = split_scan(s, d);
    st.pieces.push(trim(st.current))
}

proof fn lemma_split_scan_bounds(s: Seq<char>, d: char)
    ensures
        -s.len() <= split_scan(s, d).paren <= s.len(),
        -s.len() <= split_scan(s, d).bracket <= s.len(),
        -s.len() <= split_scan(s, d).brace <= s.len(),
        -s.len() <= split_scan(s, d).angle <= s.len(),
    decreases s.len(),
{
    if s.len() > 0 {
        lemma_split_scan_bounds(s.drop_last(), d);
    }
}

pub fn split_top_level(input: &Vec<char>, delimiter: char) -> (r: Vec<Vec<char>>)
    ensures
        views(r@) == split_top(input@, delimiter),
{
    let mut pieces: Vec<Vec<char>> = Vec::new();
    let mut current: Vec<char> = Vec::new();
    let mut paren: i128 = 0;
    let mut bracket: i128 = 0;
    let mut brace: i128 = 0;
    let mut angle: i128 = 0;
    let mut i: usize = 0;
    assert(input@.take(0) =~= Seq::<char>::empty());
    assert(views(pieces@) =~= Seq::<Seq<char>>::empty());
    while i < input.len()
        invariant
            i <= input.len(),
            ({
                let st = split_scan(input@.take(i as int), delimiter);
                &&& st.pieces == views(pieces@)
                &&& st.current == current@
                &&& st.paren == paren
                &&& st.bracket == bracket
                &&& st.brace == brace
                &&& st.angle == angle
            }),
        decreases input.len() - i,
    {
        let ghost t = input@.take(i as int + 1);
        assert(t.drop_last() =~= input@.take(i as int));
        assert(t.last() == input@[i as int]);
        proof {
            lemma_split_scan_bounds(input@.take(i as int), delimiter);
        }
        let ch = input[i];
        if ch == '(' {
            paren = paren + 1;
            current.push(ch);
        } else if ch == ')' {
            paren = paren - 1;
            current.push(ch);
        } else if ch == '[' {
            bracket = bracket + 1;
            current.push(ch);
        } else if ch == ']' {
            bracket = bracket - 1;
            current.push(ch);
        } else if ch == '{' {
            brace = brace + 1;
            current.push(ch);
        } else if ch == '}' {
            brace = brace - 1;
            current.push(ch);
        } else if ch == '<' {
            angle = angle + 1;
            current.push(ch);
        } else if ch == '>' {
            angle = angle - 1;
            current.push(ch);
        } else if ch == delimiter && paren == 0 && bracket == 0 && brace == 0 && angle == 0 {
            let piece = trim_chars(&current);
            pieces.push(piece);
            current = Vec::new();
            assert(views(pieces@) =~= split_scan(input@.take(i as int), delimiter).pieces.push(
                piece@,
            ));
        } else {
            current.push(ch);
        }
        i = i + 1;
    }
    assert(input@.take(input.len() as int) =~= input@);
    let last = trim_chars(&current);
    pieces.push(last);
    assert(views(pieces@) =~= split_scan(input@, delimiter).pieces.push(last@));
    pieces
}

// ---------------------------------------------------------------------------------------
// One throw: a value, then `x` (crossing), `p` and a juggler (a pass, where passes are
// allowed), a modifier in capitals, and an optional `/`.
// ---------------------------------------------------------------------------------------

/// What a throw is read with: the juggler who throws, whom it goes to unless a pass says
/// otherwise, the hand, whether the hand is fixed, whether the throw is synchronous, and
/// whether passes may be written.
#[derive(Clone, Copy, Debug, PartialEq, Eq, Structural)]
pub struct ThrowContext {
    pub source_juggler: usize,
    pub default_target_juggler: usize,
    pub hand: Hand,
    pub hand_fixed: bool,
    pub sync: bool,
    pub allow_pass: bool,
}

impl ThrowContext {
    pub fn new(source_juggler: usize, default_target_juggler: usize, hand: Hand, hand_fixed: bool) -> (r: Self)
        ensures
            r == (ThrowContext {
                source_juggler,
                default_target_juggler,
                hand,
                hand_fixed,
                sync: false,
                allow_pass: false,
            }),
    {
        ThrowContext { source_juggler, default_target_juggler, hand, hand_fixed, sync: false, allow_pass: false }
    }

    pub fn with_sync(self, sync: bool) -> (r: Self)
        ensures
            r == (ThrowContext { sync, ..self }),
    {
        ThrowContext { sync, ..self }
    }

    pub fn with_passing(self) -> (r: Self)
        ensures
            r == (ThrowContext { allow_pass: true, ..self }),
    {
        ThrowContext { allow_pass: true, ..self }
    }
}

/// The end of the run of characters from `i` on that satisfy the test: digits, or capitals.
pub open spec fn digits_end(s: Seq<char>, i: int) -> int
    decreases s.len() - i,
{
    if 0 <= i < s.len() && is_digit(s[i]) {
        digits_end(s, i + 1)
    } else {
        i
    }
}

pub open spec fn capitals_end(s: Seq<char>, i: int) -> int
    decreases s.len() - i,
{
    if 0 <= i < s.len() && is_upper(s[i]) {
        capitals_end(s, i + 1)
    } else {
        i
    }
}

proof fn lemma_runs(s: Seq<char>, i: int)
    requires
        0 <= i <= s.len(),
    ensures
        i <= digits_end(s, i) <= s.len(),
        i <= capitals_end(s, i) <= s.len(),
        forall|j: int| i <= j < digits_end(s, i) ==> is_digit(#[trigger] s[j]),
    decreases s.len() - i,
{
    if i < s.len() {
        lemma_runs(s, i + 1);
    }
}

/// The value at the start of a throw and where its suffixes begin.
pub open spec fn throw_head(s: Seq<char>, pos: int) -> Result<(u32, int), Seq<char>> {
    let first = s[pos];
    if first == '{' {
        let close = index_from(s, '}', pos + 1);
        if close < 0 {
            Err("Invalid braced siteswap throw: missing '}'"@)
        } else {
            let number = s.subrange(pos + 1, close);
            match parsed_u32(trim(number)) {
                Some(v) => Ok((v, close + 1)),
                None => Err("Invalid braced siteswap throw: {"@ + number + "}"@),
            }
        }
    } else {
        match char_throw_value(first) {
            Some(v) => Ok((v, pos + 1)),
            None => Err("Invalid siteswap throw: "@ + seq![first]),
        }
    }
}

/// The throw that starts at `pos` and the position after it.
pub open spec fn throw_at(s: Seq<char>, pos: int, ctx: ThrowContext) -> Result<(ThrowModel, int), Seq<char>> {
    match throw_head(s, pos) {
        Err(e) => Err(e),
        Ok((value, p1)) => {
            let cross = p1 < s.len() && s[p1] == 'x';
            let p2 = if cross { p1 + 1 } else { p1 };
            let pass = ctx.allow_pass && p2 < s.len() && s[p2] == 'p';
            let p3 = if pass { p2 + 1 } else { p2 };
            let p4 = if pass { digits_end(s, p3) } else { p3 };
            let digits = s.subrange(p3, p4);
            let target: Result<usize, Seq<char>> = if !pass {
                Ok(ctx.default_target_juggler)
            } else if digits.len() == 0 {
                Ok((ctx.source_juggler + 1) as usize)
            } else {
                match parsed_usize(digits) {
                    Some(t) => Ok(t),
                    None => Err("Invalid passing target: p"@ + digits),
                }
            };
            match target {
                Err(e) => Err(e),
                Ok(target_juggler) => {
                    let has_modifier = p4 < s.len() && starts_modifier(s[p4]);
                    let p5 = if has_modifier { capitals_end(s, p4 + 1) } else { p4 };
                    let modifier = if has_modifier { Some(s.subrange(p4, p5)) } else { None };
                    let p6 = if p5 < s.len() && s[p5] == '/' { p5 + 1 } else { p5 };
                    Ok((ThrowModel {
                        value,
                        hand: ctx.hand,
                        cross,
                        source_juggler: ctx.source_juggler,
                        target_juggler,
                        modifier,
                        hand_fixed: ctx.hand_fixed,
                        sync: ctx.sync,
                    }, p6))
                },
            }
        },
    }
}

pub proof fn lemma_throw_at(s: Seq<char>, pos: int, ctx: ThrowContext)
    requires
        0 <= pos < s.len(),
    ensures
        throw_at(s, pos, ctx) matches Ok((t, np)) ==> pos < np <= s.len(),
{
    let first = s[pos];
    if first == '{' {
        lemma_index_from(s, '}', pos + 1);
    }
    match throw_head(s, pos) {
        Err(e) => {},
        Ok((value, p1)) => {
            let cross = p1 < s.len() && s[p1] == 'x';
            let p2 = if cross { p1 + 1 } else { p1 };
            let pass = ctx.allow_pass && p2 < s.len() && s[p2] == 'p';
            let p3 = if pass { p2 + 1 } else { p2 };
            lemma_runs(s, p3);
            let p4 = if pass { digits_end(s, p3) } else { p3 };
            if p4 < s.len() {
                lemma_runs(s, p4 + 1);
            }
        },
    }
}

fn text_error(head: &str, tail: &Vec<char>, end: &str) -> (r: String)
    ensures
        r@ == head@ + tail@ + end@,
{
    let mut m: Vec<char> = Vec::new();
    push_str(&mut m, head);
    push_all(&mut m, tail);
    push_str(&mut m, end);
    string_from_chars(&m)
}

fn joined_error(head: &str, tail: &Vec<char>) -> (r: String)
    ensures
        r@ == head@ + tail@,
{
    let mut m: Vec<char> = Vec::new();
    push_str(&mut m, head);
    push_all(&mut m, tail);
    string_from_chars(&m)
}

/// Reads the value at the start of a throw.
fn read_throw_head(chars: &Vec<char>, pos: usize) -> (r: Result<(u32, usize), String>)
    requires
        pos < chars.len(),
    ensures
        match r {
            Ok((v, p)) => throw_head(chars@, pos as int) == Ok::<(u32, int), Seq<char>>((v, p as int)),
            Err(e) => throw_head(chars@, pos as int) == Err::<(u32, int), Seq<char>>(e@),
        },
{
    let ghost s = chars@;
    let first = chars[pos];
    if first == '{' {
        let mut j: usize = pos + 1;
        while j < chars.len() && chars[j] != '}'
            invariant
                pos < j <= chars.len(),
                s == chars@,
                index_from(s, '}', pos + 1) == index_from(s, '}', j as int),
            decreases chars.len() - j,
        {
            j = j + 1;
        }
        if j >= chars.len() {
            return Err("Invalid braced siteswap throw: missing '}'".to_owned());
        }
        let number = slice_of(chars, pos + 1, j);
        let trimmed = trim_chars(&number);
        match parse_u32(&trimmed) {
            Some(v) => Ok((v, j + 1)),
            None => Err(text_error("Invalid braced siteswap throw: {", &number, "}")),
        }
    } else {
        match throw_value(first) {
            Some(v) => Ok((v, pos + 1)),
            None => {
                let one = vec![first];
                assert(one@ =~= seq![first]);
                Err(joined_error("Invalid siteswap throw: ", &one))
            },
        }
    }
}

/// Reads the juggler a pass goes to, written after `p` at `start`; gives it and the
/// position after the digits.
fn read_pass_target(chars: &Vec<char>, start: usize, source_juggler: usize) -> (r: Result<(usize, usize), String>)
    requires
        start <= chars.len(),
        source_juggler < usize::MAX,
    ensures
        ({
            let s = chars@;
            let p4 = digits_end(s, start as int);
            let digits = s.subrange(start as int, p4);
            match r {
                Ok((t, p)) => p == p4 && (if digits.len() == 0 {
                    t == source_juggler + 1
                } else {
                    parsed_usize(digits) == Some(t)
                }),
                Err(e) => digits.len() > 0 && parsed_usize(digits) is None && e@ == "Invalid passing target: p"@ + digits,
            }
        }),
{
    let ghost s = chars@;
    let mut p = start;
    proof {
        lemma_runs(s, start as int);
    }
    while p < chars.len() && '0' <= chars[p] && chars[p] <= '9'
        invariant
            start <= p <= chars.len(),
            s == chars@,
            digits_end(s, start as int) == digits_end(s, p as int),
        decreases chars.len() - p,
    {
        p = p + 1;
    }
    if p > start {
        let digits = slice_of(chars, start, p);
        match parse_usize(&digits) {
            Some(t) => Ok((t, p)),
            None => Err(joined_error("Invalid passing target: p", &digits)),
        }
    } else {
        Ok((source_juggler + 1, p))
    }
}

/// Reads the throw that starts at `pos`; gives it and the position after it.
pub fn parse_throw_at(chars: &Vec<char>, pos: usize, ctx: ThrowContext) -> (r: Result<(ThrowSpec, usize), String>)
    requires
        pos < chars.len(),
        ctx.source_juggler < usize::MAX,
    ensures
        match r {
            Ok((t, np)) => throw_at(chars@, pos as int, ctx) == Ok::<(ThrowModel, int), Seq<char>>((t@, np as int)),
            Err(e) => throw_at(chars@, pos as int, ctx) == Err::<(ThrowModel, int), Seq<char>>(e@),
        },
{
    let ghost s = chars@;
    let (value, p1) = match read_throw_head(chars, pos) {
        Ok(h) => h,
        Err(e) => {
            return Err(e);
        },
    };
    proof {
        lemma_throw_at(s, pos as int, ctx);
        assert(p1 <= chars.len()) by {
            let first = s[pos as int];
            if first == '{' {
                lemma_index_from(s, '}', pos + 1);
            }
        }
    }
    let mut p = p1;
    let cross = p < chars.len() && chars[p] == 'x';
    if cross {
        p = p + 1;
    }
    let mut target_juggler = ctx.default_target_juggler;
    let pass = ctx.allow_pass && p < chars.len() && chars[p] == 'p';
    if pass {
        match read_pass_target(chars, p + 1, ctx.source_juggler) {
            Ok((t, q)) => {
                target_juggler = t;
                p = q;
            },
            Err(e) => {
                return Err(e);
            },
        }
    }
    proof {
        lemma_runs(s, p as int);
    }
    let mut modifier: Option<String> = None;
    let ghost p4 = p as int;
    if p < chars.len() && is_modifier_start(chars[p]) {
        let start = p;
        p = p + 1;
        proof {
            lemma_runs(s, p as int);
        }
        while p < chars.len() && 'A' <= chars[p] && chars[p] <= 'Z'
            invariant
                start < p <= chars.len(),
                s == chars@,
                capitals_end(s, start + 1) == capitals_end(s, p as int),
            decreases chars.len() - p,
        {
            p = p + 1;
        }
        let text = slice_of(chars, start, p);
        modifier = Some(string_from_chars(&text));
    }
    if p < chars.len() && chars[p] == '/' {
        p = p + 1;
    }
    let t = ThrowSpec {
        value,
        hand: ctx.hand,
        cross,
        source_juggler: ctx.source_juggler,
        target_juggler,
        modifier,
        hand_fixed: ctx.hand_fixed,
        sync: ctx.sync,
    };
    Ok((t, p))
}

// ---------------------------------------------------------------------------------------
// Lists of throws: multiplexes and the slots of synchronous and passing groups.
// ---------------------------------------------------------------------------------------

/// The throws read from `pos` on, skipping whitespace and commas, after those in `acc`.
pub open spec fn throw_list(s: Seq<char>, pos: int, ctx: ThrowContext, acc: Seq<ThrowModel>) -> Result<Seq<ThrowModel>, Seq<char>>
    decreases s.len() - pos,
{
    if pos < 0 || pos >= s.len() {
        Ok(acc)
    } else if is_ws(s[pos]) || s[pos] == ',' {
        throw_list(s, pos + 1, ctx, acc)
    } else {
        match throw_at(s, pos, ctx) {
            Err(e) => Err(e),
            Ok((t, np)) => {
                proof {
                    lemma_throw_at(s, pos, ctx);
                }
                throw_list(s, np, ctx, acc.push(t))
            },
        }
    }
}

/// The throws of a multiplex from `pos` on, after those in `acc`: whitespace is skipped,
/// anything that cannot start a throw is refused, and at least one throw is needed.
pub open spec fn multiplex_list(s: Seq<char>, pos: int, ctx: ThrowContext, acc: Seq<ThrowModel>) -> Result<Seq<ThrowModel>, Seq<char>>
    decreases s.len() - pos,
{
    if pos < 0 || pos >= s.len() {
        if acc.len() == 0 {
            Err("A multiplex must contain at least one throw"@)
        } else {
            Ok(acc)
        }
    } else if is_ws(s[pos]) {
        multiplex_list(s, pos + 1, ctx, acc)
    } else if !starts_throw(s[pos]) {
        Err("Unexpected character in multiplex: "@ + seq![s[pos]])
    } else {
        match throw_at(s, pos, ctx) {
            Err(e) => Err(e),
            Ok((t, np)) => {
                proof {
                    lemma_throw_at(s, pos, ctx);
                }
                multiplex_list(s, np, ctx, acc.push(t))
            },
        }
    }
}

/// The zero throw that stands for an empty slot.
pub open spec fn rest_throw(hand: Hand, juggler: usize, sync: bool) -> ThrowModel {
    ThrowModel {
        value: 0,
        hand,
        cross: false,
        source_juggler: juggler,
        target_juggler: juggler,
        modifier: None,
        hand_fixed: true,
        sync,
    }
}

/// Whether a slot is written as a multiplex in square brackets.
pub open spec fn bracketed(slot: Seq<char>) -> bool {
    slot.len() >= 2 && slot[0] == '[' && slot.last() == ']'
}

/// The throws of one hand's slot in a synchronous pair of a single juggler.
pub open spec fn sync_slot(slot: Seq<char>, hand: Hand) -> Result<Seq<ThrowModel>, Seq<char>> {
    let ctx = ThrowContext {
        source_juggler: 1,
        default_target_juggler: 1,
        hand,
        hand_fixed: true,
        sync: true,
        allow_pass: false,
    };
    if slot.len() == 0 || slot == seq!['-'] {
        Ok(seq![rest_throw(hand, 1, true)])
    } else if bracketed(slot) {
        throw_list(slot.subrange(1, slot.len() - 1), 0, ctx, Seq::empty())
    } else {
        match throw_at(slot, 0, ctx) {
            Err(e) => Err(e),
            Ok((t, np)) => Ok(seq![t]),
        }
    }
}

/// The throws of one hand's slot in a passing group.
pub open spec fn passing_slot(slot: Seq<char>, source: usize, hand: Hand, hand_fixed: bool, sync: bool) -> Result<Seq<ThrowModel>, Seq<char>> {
    if slot.len() == 0 || slot == seq!['-'] {
        Ok(seq![rest_throw(hand, source, sync)])
    } else {
        let inner = if bracketed(slot) {
            slot.subrange(1, slot.len() - 1)
        } else {
            slot
        };
        throw_list(
            inner,
            0,
            ThrowContext {
                source_juggler: source,
                default_target_juggler: source,
                hand,
                hand_fixed,
                sync,
                allow_pass: true,
            },
            Seq::empty(),
        )
    }
}

fn read_throw_list(chars: &Vec<char>, ctx: ThrowContext) -> (r: Result<Vec<ThrowSpec>, String>)
    requires
        ctx.source_juggler < usize::MAX,
    ensures
        match r {
            Ok(v) => throw_list(chars@, 0, ctx, Seq::empty()) == Ok::<Seq<ThrowModel>, Seq<char>>(throw_models(v@)),
            Err(e) => throw_list(chars@, 0, ctx, Seq::empty()) == Err::<Seq<ThrowModel>, Seq<char>>(e@),
        },
{
    let mut throws: Vec<ThrowSpec> = Vec::new();
    let mut pos: usize = 0;
    assert(throw_models(throws@) =~= Seq::<ThrowModel>::empty());
    while pos < chars.len()
        invariant
            pos <= chars.len(),
            ctx.source_juggler < usize::MAX,
            throw_list(chars@, 0, ctx, Seq::empty()) == throw_list(chars@, pos as int, ctx, throw_models(throws@)),
        decreases chars.len() - pos,
    {
        let ch = chars[pos];
        if is_whitespace(ch) || ch == ',' {
            pos = pos + 1;
        } else {
            proof {
                lemma_throw_at(chars@, pos as int, ctx);
            }
            match parse_throw_at(chars, pos, ctx) {
                Ok((t, np)) => {
                    let ghost before = throw_models(throws@);
                    throws.push(t);
                    assert(throw_models(throws@) =~= before.push(t@));
                    pos = np;
                },
                Err(e) => {
                    return Err(e);
                },
            }
        }
    }
    Ok(throws)
}

/// Reads the throws of a multiplex, the text between its brackets.
pub fn parse_multiplex_slice(chars: &Vec<char>, ctx: ThrowContext) -> (r: Result<Vec<ThrowSpec>, String>)
    requires
        ctx.source_juggler < usize::MAX,
    ensures
        match r {
            Ok(v) => multiplex_list(chars@, 0, ctx, Seq::empty()) == Ok::<Seq<ThrowModel>, Seq<char>>(throw_models(v@)),
            Err(e) => multiplex_list(chars@, 0, ctx, Seq::empty()) == Err::<Seq<ThrowModel>, Seq<char>>(e@),
        },
{
    let mut throws: Vec<ThrowSpec> = Vec::new();
    let mut pos: usize = 0;
    assert(throw_models(throws@) =~= Seq::<ThrowModel>::empty());
    while pos < chars.len()
        invariant
            pos <= chars.len(),
            ctx.source_juggler < usize::MAX,
            multiplex_list(chars@, 0, ctx, Seq::empty()) == multiplex_list(chars@, pos as int, ctx, throw_models(throws@)),
        decreases chars.len() - pos,
    {
        let ch = chars[pos];
        if is_whitespace(ch) {
            pos = pos + 1;
        } else if !is_throw_value_start(ch) {
            let one = vec![ch];
            assert(one@ =~= seq![ch]);
            return Err(joined_error("Unexpected character in multiplex: ", &one));
        } else {
            proof {
                lemma_throw_at(chars@, pos as int, ctx);
            }
            match parse_throw_at(chars, pos, ctx) {
                Ok((t, np)) => {
                    let ghost before = throw_models(throws@);
                    throws.push(t);
                    assert(throw_models(throws@) =~= before.push(t@));
                    pos = np;
                },
                Err(e) => {
                    return Err(e);
                },
            }
        }
    }
    if throws.len() == 0 {
        return Err("A multiplex must contain at least one throw".to_owned());
    }
    Ok(throws)
}

fn rest_throw_spec(hand: Hand, juggler: usize, sync: bool) -> (r: ThrowSpec)
    ensures
        r@ == rest_throw(hand, juggler, sync),
{
    ThrowSpec {
        value: 0,
        hand,
        cross: false,
        source_juggler: juggler,
        target_juggler: juggler,
        modifier: None,
        hand_fixed: true,
        sync,
    }
}

fn is_rest_slot(slot: &Vec<char>) -> (r: bool)
    ensures
        r == (slot@.len() == 0 || slot@ == seq!['-']),
{
    if slot.len() == 0 {
        return true;
    }
    if slot.len() == 1 && slot[0] == '-' {
        assert(slot@ =~= seq!['-']);
        return true;
    }
    assert(slot@.len() != 1 ==> slot@ != seq!['-']);
    false
}

fn is_bracketed(slot: &Vec<char>) -> (r: bool)
    ensures
        r == bracketed(slot@),
{
    slot.len() >= 2 && slot[0] == '[' && slot[slot.len() - 1] == ']'
}

/// Reads one hand's slot of a synchronous pair: `-` or nothing for a rest, a multiplex in
/// brackets, or one throw (what follows the throw is ignored).
pub fn parse_sync_slot(slot: &Vec<char>, hand: Hand) -> (r: Result<Vec<ThrowSpec>, String>)
    ensures
        match r {
            Ok(v) => sync_slot(slot@, hand) == Ok::<Seq<ThrowModel>, Seq<char>>(throw_models(v@)),
            Err(e) => sync_slot(slot@, hand) == Err::<Seq<ThrowModel>, Seq<char>>(e@),
        },
{
    let ctx = ThrowContext::new(1, 1, hand, true).with_sync(true);
    if is_rest_slot(slot) {
        let t = rest_throw_spec(hand, 1, true);
        let v = vec![t];
        assert(throw_models(v@) =~= seq![rest_throw(hand, 1, true)]);
        return Ok(v);
    }
    if is_bracketed(slot) {
        let inner = slice_of(slot, 1, slot.len() - 1);
        return read_throw_list(&inner, ctx);
    }
    match parse_throw_at(slot, 0, ctx) {
        Ok((t, np)) => {
            let ghost m = t@;
            let v = vec![t];
            assert(throw_models(v@) =~= seq![m]);
            Ok(v)
        },
        Err(e) => Err(e),
    }
}

/// Reads one hand's slot of a passing group.
pub fn parse_throw_slot_for_passing(
    slot: &Vec<char>,
    source_juggler: usize,
    hand: Hand,
    hand_fixed: bool,
    sync: bool,
) -> (r: Result<Vec<ThrowSpec>, String>)
    requires
        source_juggler < usize::MAX,
    ensures
        match r {
            Ok(v) => passing_slot(slot@, source_juggler, hand, hand_fixed, sync) == Ok::<Seq<ThrowModel>, Seq<char>>(throw_models(v@)),
            Err(e) => passing_slot(slot@, source_juggler, hand, hand_fixed, sync) == Err::<Seq<ThrowModel>, Seq<char>>(e@),
        },
{
    if is_rest_slot(slot) {
        let t = rest_throw_spec(hand, source_juggler, sync);
        let v = vec![t];
        assert(throw_models(v@) =~= seq![rest_throw(hand, source_juggler, sync)]);
        return Ok(v);
    }
    let ctx = ThrowContext::new(source_juggler, source_juggler, hand, hand_fixed).with_sync(sync).with_passing();
    if is_bracketed(slot) {
        let inner = slice_of(slot, 1, slot.len() - 1);
        read_throw_list(&inner, ctx)
    } else {
        read_throw_list(slot, ctx)
    }
}

// ---------------------------------------------------------------------------------------
// The state a pattern is read with: the number of jugglers once known, which hand each
// juggler throws with on even beats, whose hands an `L` or `R` has fixed, and what kind of
// throws have been seen.
// ---------------------------------------------------------------------------------------

pub ghost struct GrammarModel {
    pub jugglers: Option<usize>,
    pub right_on_even: Seq<bool>,
    pub hand_fixed: Seq<bool>,
    pub saw_sync: bool,
    pub saw_async: bool,
    pub explicit_switch: bool,
}

/// The state of a reading that has just begun.
pub open spec fn initial_grammar() -> GrammarModel {
    GrammarModel {
        jugglers: None,
        right_on_even: Seq::empty(),
        hand_fixed: Seq::empty(),
        saw_sync: false,
        saw_async: false,
        explicit_switch: false,
    }
}

/// The per-juggler sequences are as long as the number of jugglers, once that is known.
pub open spec fn grammar_ok(g: GrammarModel) -> bool {
    match g.jugglers {
        Some(n) => 1 <= n < usize::MAX && g.right_on_even.len() == n && g.hand_fixed.len() == n,
        None => true,
    }
}

/// Fixes the number of jugglers at `n`, or checks it against the number already fixed.
pub open spec fn require_jugglers(g: GrammarModel, n: usize) -> Result<GrammarModel, Seq<char>> {
    match g.jugglers {
        Some(e) => if e != n {
            Err("Inconsistent number of jugglers"@)
        } else {
            Ok(g)
        },
        None => Ok(
            GrammarModel {
                jugglers: Some(n),
                right_on_even: Seq::new(n as nat, |i: int| true),
                hand_fixed: Seq::new(n as nat, |i: int| false),
                ..g
            },
        ),
    }
}

pub struct GrammarState {
    pub jugglers: Option<usize>,
    pub right_on_even: Vec<bool>,
    pub hand_fixed: Vec<bool>,
    pub saw_sync: bool,
    pub saw_async: bool,
    pub explicit_switch: bool,
}

impl View for GrammarState {
    type V = GrammarModel;

    open spec fn view(&self) -> GrammarModel {
        GrammarModel {
            jugglers: self.jugglers,
            right_on_even: self.right_on_even@,
            hand_fixed: self.hand_fixed@,
            saw_sync: self.saw_sync,
            saw_async: self.saw_async,
            explicit_switch: self.explicit_switch,
        }
    }
}

impl GrammarState {
    pub fn new() -> (r: Self)
        ensures
            r@ == initial_grammar(),
    {
        GrammarState {
            jugglers: None,
            right_on_even: Vec::new(),
            hand_fixed: Vec::new(),
            saw_sync: false,
            saw_async: false,
            explicit_switch: false,
        }
    }

    pub fn require_jugglers(&mut self, jugglers: usize) -> (r: Result<(), String>)
        requires
            1 <= jugglers < usize::MAX,
            grammar_ok(old(self)@),
        ensures
            match r {
                Ok(()) => require_jugglers(old(self)@, jugglers) == Ok::<GrammarModel, Seq<char>>(final(self)@),
                Err(e) => require_jugglers(old(self)@, jugglers) == Err::<GrammarModel, Seq<char>>(e@),
            },
            grammar_ok(final(self)@),
    {
        match self.jugglers {
            Some(expected) => {
                if expected != jugglers {
                    return Err("Inconsistent number of jugglers".to_owned());
                }
                Ok(())
            },
            None => {
                self.jugglers = Some(jugglers);
                let mut roe: Vec<bool> = Vec::new();
                let mut fixed: Vec<bool> = Vec::new();
                let mut i: usize = 0;
                while i < jugglers
                    invariant
                        i <= jugglers,
                        roe@ =~= Seq::new(i as nat, |k: int| true),
                        fixed@ =~= Seq::new(i as nat, |k: int| false),
                    decreases jugglers - i,
                {
                    roe.push(true);
                    fixed.push(false);
                    i = i + 1;
                }
                self.right_on_even = roe;
                self.hand_fixed = fixed;
                Ok(())
            },
        }
    }
}

// ---------------------------------------------------------------------------------------
// Passing groups: `<a|b|...>`, one part per juggler.
// ---------------------------------------------------------------------------------------

/// The state of reading one juggler's part of a passing group: how many beats it has
/// taken, the throws found and the beat of each, and the hand settings.
pub ghost struct PassingScan {
    pub beats: int,
    pub entries: Seq<(int, Seq<ThrowModel>)>,
    pub right_on_even: Seq<bool>,
    pub hand_fixed: Seq<bool>,
}

pub open spec fn passing_throws(s: Seq<char>, pos: int, source: usize, global: int, st: PassingScan) -> Result<PassingScan, Seq<char>>
    decreases s.len() - pos,
{
    if pos < 0 || pos >= s.len() {
        Ok(st)
    } else {
        let c = s[pos];
        let idx = source - 1;
        if is_ws(c) || c == ',' || c == '.' {
            passing_throws(s, pos + 1, source, global, st)
        } else if c == 'R' || c == 'L' {
            let left = c == 'L';
            let roe = if (global + st.beats) % 2 == 0 { !left } else { left };
            passing_throws(
                s,
                pos + 1,
                source,
                global,
                PassingScan {
                    right_on_even: st.right_on_even.update(idx, roe),
                    hand_fixed: st.hand_fixed.update(idx, true),
                    ..st
                },
            )
        } else if c == '(' {
            match closing_position(s, pos, 0, '(', ')') {
                None => Err("Invalid passing synchronous group: missing ')'"@),
                Some(close) => {
                    let group = s.subrange(pos + 1, close);
                    let parts = split_top(group, ',');
                    if parts.len() < 2 {
                        Err("Invalid passing synchronous group: ("@ + group + ")"@)
                    } else {
                        match passing_slot(trim(parts[0]), source, Hand::Left, true, true) {
                            Err(e) => Err(e),
                            Ok(left_throws) => match passing_slot(trim(parts[1]), source, Hand::Right, true, true) {
                                Err(e) => Err(e),
                                Ok(right_throws) => {
                                    proof {
                                        lemma_closing_position(s, pos, 0, '(', ')');
                                    }
                                    let entries = st.entries.push((st.beats, left_throws + right_throws));
                                    if close + 1 < s.len() && s[close + 1] == '!' {
                                        passing_throws(s, close + 2, source, global, PassingScan { beats: st.beats + 1, entries, ..st })
                                    } else {
                                        passing_throws(s, close + 1, source, global, PassingScan { beats: st.beats + 2, entries, ..st })
                                    }
                                },
                            },
                        }
                    }
                },
            }
        } else if c == '[' {
            match closing_position(s, pos, 0, '[', ']') {
                None => Err("Invalid passing multiplex: missing ']'"@),
                Some(close) => {
                    let group = s.subrange(pos + 1, close);
                    let hand = async_hand(global + st.beats, st.right_on_even[idx]);
                    let ctx = ThrowContext {
                        source_juggler: source,
                        default_target_juggler: source,
                        hand,
                        hand_fixed: st.hand_fixed[idx],
                        sync: false,
                        allow_pass: true,
                    };
                    match throw_list(group, 0, ctx, Seq::empty()) {
                        Err(e) => Err(e),
                        Ok(throws) => {
                            proof {
                                lemma_closing_position(s, pos, 0, '[', ']');
                            }
                            passing_throws(
                                s,
                                close + 1,
                                source,
                                global,
                                PassingScan { beats: st.beats + 1, entries: st.entries.push((st.beats, throws)), ..st },
                            )
                        },
                    }
                },
            }
        } else if c == ']' || c == ')' || c == '>' || c == '|' {
            Err("Unexpected character in passing siteswap: "@ + seq![c])
        } else {
            let hand = async_hand(global + st.beats, st.right_on_even[idx]);
            let ctx = ThrowContext {
                source_juggler: source,
                default_target_juggler: source,
                hand,
                hand_fixed: st.hand_fixed[idx],
                sync: false,
                allow_pass: true,
            };
            match throw_at(s, pos, ctx) {
                Err(e) => Err(e),
                Ok((t, np)) => {
                    proof {
                        lemma_throw_at(s, pos, ctx);
                    }
                    passing_throws(
                        s,
                        np,
                        source,
                        global,
                        PassingScan { beats: st.beats + 1, entries: st.entries.push((st.beats, seq![t])), ..st },
                    )
                },
            }
        }
    }
}

pub struct PassingEntry {
    pub beat_offset: usize,
    pub throws: Vec<ThrowSpec>,
}

pub struct ParsedPassingThrows {
    pub beats: usize,
    pub entries: Vec<PassingEntry>,
}

pub open spec fn entry_models(v: Seq<PassingEntry>) -> Seq<(int, Seq<ThrowModel>)> {
    Seq::new(v.len(), |i: int| (v[i].beat_offset as int, throw_models(v[i].throws@)))
}

proof fn lemma_parity(global: int, beats: int, global_odd: bool)
    requires
        (global % 2 == 1) == global_odd,
        beats >= 0,
    ensures
        ((global + beats) % 2 == 1) == (global_odd != (beats % 2 == 1)),
        ((global + beats) % 2 == 0) == !(global_odd != (beats % 2 == 1)),
{
}

/// Reads one juggler's part of a passing group. `global_odd` is the parity of the beat the
/// group starts on (`global`).
#[verifier::rlimit(40)]
#[verifier::spinoff_prover]
fn parse_passing_throws(
    part: &Vec<char>,
    source_juggler: usize,
    Ghost(global): Ghost<int>,
    global_odd: bool,
    right_on_even: &mut Vec<bool>,
    hand_fixed: &mut Vec<bool>,
) -> (r: Result<ParsedPassingThrows, String>)
    requires
        1 <= source_juggler <= old(right_on_even)@.len(),
        old(right_on_even)@.len() == old(hand_fixed)@.len(),
        source_juggler < usize::MAX,
        (global % 2 == 1) == global_odd,
    ensures
        final(right_on_even)@.len() == old(right_on_even)@.len(),
        final(hand_fixed)@.len() == old(hand_fixed)@.len(),
        ({
            let start = PassingScan {
                beats: 0,
                entries: Seq::empty(),
                right_on_even: old(right_on_even)@,
                hand_fixed: old(hand_fixed)@,
            };
            match r {
                Ok(p) => passing_throws(part@, 0, source_juggler, global, start) == Ok::<PassingScan, Seq<char>>(
                    PassingScan {
                        beats: p.beats as int,
                        entries: entry_models(p.entries@),
                        right_on_even: final(right_on_even)@,
                        hand_fixed: final(hand_fixed)@,
                    },
                ) && (forall|k: int| 0 <= k < p.entries@.len() ==> #[trigger] p.entries@[k].beat_offset < p.beats),
                Err(e) => passing_throws(part@, 0, source_juggler, global, start) == Err::<PassingScan, Seq<char>>(e@),
            }
        }),
{
    let ghost s = part@;
    let ghost start = PassingScan {
        beats: 0,
        entries: Seq::empty(),
        right_on_even: right_on_even@,
        hand_fixed: hand_fixed@,
    };
    let ghost n = right_on_even@.len();
    let idx = source_juggler - 1;
    let mut entries: Vec<PassingEntry> = Vec::new();
    let mut beat_sub: usize = 0;
    let mut pos: usize = 0;
    assert(entry_models(entries@) =~= Seq::<(int, Seq<ThrowModel>)>::empty());
    while pos < part.len()
        invariant
            s == part@,
            pos <= part.len(),
            beat_sub <= pos,
            idx == source_juggler - 1,
            1 <= source_juggler < usize::MAX,
            source_juggler <= n,
            right_on_even@.len() == n,
            hand_fixed@.len() == n,
            n == old(right_on_even)@.len(),
            n == old(hand_fixed)@.len(),
            start == (PassingScan {
                beats: 0,
                entries: Seq::empty(),
                right_on_even: old(right_on_even)@,
                hand_fixed: old(hand_fixed)@,
            }),
            (global % 2 == 1) == global_odd,
            forall|k: int| 0 <= k < entries@.len() ==> #[trigger] entries@[k].beat_offset < beat_sub,
            passing_throws(s, 0, source_juggler, global, start) == passing_throws(
                s,
                pos as int,
                source_juggler,
                global,
                PassingScan {
                    beats: beat_sub as int,
                    entries: entry_models(entries@),
                    right_on_even: right_on_even@,
                    hand_fixed: hand_fixed@,
                },
            ),
        decreases part.len() - pos,
    {
        let ch = part[pos];
        let odd = global_odd != (beat_sub % 2 == 1);
        proof {
            lemma_parity(global, beat_sub as int, global_odd);
        }
        if is_whitespace(ch) || ch == ',' || ch == '.' {
            pos = pos + 1;
        } else if ch == 'R' || ch == 'L' {
            let left = ch == 'L';
            let value = if !odd { !left } else { left };
            right_on_even.set(idx, value);
            hand_fixed.set(idx, true);
            pos = pos + 1;
        } else if ch == '(' {
            let close = match matching_delimiter(part, pos, '(', ')') {
                Some(c) => c,
                None => {
                    return Err("Invalid passing synchronous group: missing ')'".to_owned());
                },
            };
            proof {
                lemma_closing_position(s, pos as int, 0, '(', ')');
            }
            let group = slice_of(part, pos + 1, close);
            let parts = split_top_level(&group, ',');
            if parts.len() < 2 {
                return Err(text_error("Invalid passing synchronous group: (", &group, ")"));
            }
            assert(views(parts@)[0] == parts@[0]@ && views(parts@)[1] == parts@[1]@);
            let first = trim_chars(&parts[0]);
            let mut throws = match parse_throw_slot_for_passing(&first, source_juggler, Hand::Left, true, true) {
                Ok(v) => v,
                Err(e) => {
                    return Err(e);
                },
            };
            let second = trim_chars(&parts[1]);
            let mut more = match parse_throw_slot_for_passing(&second, source_juggler, Hand::Right, true, true) {
                Ok(v) => v,
                Err(e) => {
                    return Err(e);
                },
            };
            let ghost left_models = throw_models(throws@);
            let ghost right_models = throw_models(more@);
            throws.append(&mut more);
            assert(throw_models(throws@) =~= left_models + right_models);
            let ghost before = entry_models(entries@);
            entries.push(PassingEntry { beat_offset: beat_sub, throws });
            assert(entry_models(entries@) =~= before.push((beat_sub as int, left_models + right_models)));
            pos = close + 1;
            if pos < part.len() && part[pos] == '!' {
                beat_sub = beat_sub + 1;
                pos = pos + 1;
            } else {
                beat_sub = beat_sub + 2;
            }
        } else if ch == '[' {
            let close = match matching_delimiter(part, pos, '[', ']') {
                Some(c) => c,
                None => {
                    return Err("Invalid passing multiplex: missing ']'".to_owned());
                },
            };
            proof {
                lemma_closing_position(s, pos as int, 0, '[', ']');
            }
            let group = slice_of(part, pos + 1, close);
            let hand = hand_for_async_beat(odd, right_on_even[idx]);
            let ctx = ThrowContext::new(source_juggler, source_juggler, hand, hand_fixed[idx]).with_sync(false).with_passing();
            let throws = match read_throw_list(&group, ctx) {
                Ok(v) => v,
                Err(e) => {
                    return Err(e);
                },
            };
            let ghost before = entry_models(entries@);
            let ghost tm = throw_models(throws@);
            entries.push(PassingEntry { beat_offset: beat_sub, throws });
            assert(entry_models(entries@) =~= before.push((beat_sub as int, tm)));
            beat_sub = beat_sub + 1;
            pos = close + 1;
        } else if ch == ']' || ch == ')' || ch == '>' || ch == '|' {
            let one = vec![ch];
            assert(one@ =~= seq![ch]);
            return Err(joined_error("Unexpected character in passing siteswap: ", &one));
        } else {
            let hand = hand_for_async_beat(odd, right_on_even[idx]);
            let ctx = ThrowContext::new(source_juggler, source_juggler, hand, hand_fixed[idx]).with_passing();
            proof {
                lemma_throw_at(s, pos as int, ctx);
            }
            let (t, np) = match parse_throw_at(part, pos, ctx) {
                Ok(x) => x,
                Err(e) => {
                    return Err(e);
                },
            };
            let ghost before = entry_models(entries@);
            let ghost tm = t@;
            let throws = vec![t];
            assert(throw_models(throws@) =~= seq![tm]);
            entries.push(PassingEntry { beat_offset: beat_sub, throws });
            assert(entry_models(entries@) =~= before.push((beat_sub as int, seq![tm])));
            beat_sub = beat_sub + 1;
            pos = np;
        }
    }
    Ok(ParsedPassingThrows { beats: beat_sub, entries })
}

/// The parts of a passing group from part `j` on: each is read for juggler `j + 1`, and all
/// must take the same number of beats.
pub open spec fn passing_parts(
    parts: Seq<Seq<char>>,
    j: int,
    global: int,
    roe: Seq<bool>,
    hf: Seq<bool>,
    expected: Option<int>,
    done: Seq<Seq<(int, Seq<ThrowModel>)>>,
) -> Result<(int, Seq<Seq<(int, Seq<ThrowModel>)>>, Seq<bool>, Seq<bool>), Seq<char>>
    decreases parts.len() - j,
{
    if j < 0 || j >= parts.len() {
        Ok((
            match expected {
                Some(b) => b,
                None => 0,
            },
            done,
            roe,
            hf,
        ))
    } else {
        let start = PassingScan { beats: 0, entries: Seq::empty(), right_on_even: roe, hand_fixed: hf };
        match passing_throws(parts[j], 0, (j + 1) as usize, global, start) {
            Err(e) => Err(e),
            Ok(scan) => if expected matches Some(b) && b != scan.beats {
                Err("Inconsistent number of beats between jugglers"@)
            } else {
                passing_parts(
                    parts,
                    j + 1,
                    global,
                    scan.right_on_even,
                    scan.hand_fixed,
                    Some(scan.beats),
                    done.push(scan.entries),
                )
            },
        }
    }
}

/// Adds the throws of an entry to its beat.
pub open spec fn add_entry(beats: Seq<Seq<ThrowModel>>, e: (int, Seq<ThrowModel>)) -> Seq<Seq<ThrowModel>> {
    if 0 <= e.0 < beats.len() {
        beats.update(e.0, beats[e.0] + e.1)
    } else {
        beats
    }
}

pub open spec fn add_entries(beats: Seq<Seq<ThrowModel>>, entries: Seq<(int, Seq<ThrowModel>)>) -> Seq<Seq<ThrowModel>>
    decreases entries.len(),
{
    if entries.len() == 0 {
        beats
    } else {
        add_entries(add_entry(beats, entries[0]), entries.drop_first())
    }
}

/// The beats of a passing group: the throws of each part in turn, added to their beats.
pub open spec fn merge_parts(beats: Seq<Seq<ThrowModel>>, parts: Seq<Seq<(int, Seq<ThrowModel>)>>) -> Seq<Seq<ThrowModel>>
    decreases parts.len(),
{
    if parts.len() == 0 {
        beats
    } else {
        merge_parts(add_entries(beats, parts[0]), parts.drop_first())
    }
}

pub open spec fn has_sync_throw(beats: Seq<Seq<ThrowModel>>) -> bool {
    exists|i: int, k: int| 0 <= i < beats.len() && 0 <= k < beats[i].len() && #[trigger] beats[i][k].sync
}

pub open spec fn has_async_throw(beats: Seq<Seq<ThrowModel>>) -> bool {
    exists|i: int, k: int| 0 <= i < beats.len() && 0 <= k < beats[i].len() && !#[trigger] beats[i][k].sync
}

/// The beats of a passing group and the state after it.
pub open spec fn passing_group(group: Seq<char>, global: int, g: GrammarModel) -> Result<(Seq<Seq<ThrowModel>>, GrammarModel), Seq<char>> {
    let parts = split_top(group, '|');
    if parts.len() == 0 {
        Err("Passing group contains no jugglers"@)
    } else {
        match require_jugglers(g, parts.len() as usize) {
            Err(e) => Err(e),
            Ok(g1) => match passing_parts(parts, 0, global, g1.right_on_even, g1.hand_fixed, None, Seq::empty()) {
                Err(e) => Err(e),
                Ok((count, entries, roe, hf)) => {
                    let beats = merge_parts(Seq::new(count as nat, |i: int| Seq::<ThrowModel>::empty()), entries);
                    Ok((
                        beats,
                        GrammarModel {
                            right_on_even: roe,
                            hand_fixed: hf,
                            saw_sync: g1.saw_sync || has_sync_throw(beats),
                            saw_async: g1.saw_async || has_async_throw(beats),
                            ..g1
                        },
                    ))
                },
            },
        }
    }
}

proof fn lemma_split_scan_count(s: Seq<char>, d: char)
    ensures
        split_scan(s, d).pieces.len() <= s.len(),
    decreases s.len(),
{
    if s.len() > 0 {
        lemma_split_scan_count(s.drop_last(), d);
    }
}

/// Whether the beats hold a synchronous throw, and whether they hold another.
fn throw_kinds(beats: &Vec<Beat>) -> (r: (bool, bool))
    ensures
        r.0 == has_sync_throw(beat_models(beats@)),
        r.1 == has_async_throw(beat_models(beats@)),
{
    let ghost m = beat_models(beats@);
    let mut found_sync = false;
    let mut found_async = false;
    let mut i: usize = 0;
    while i < beats.len()
        invariant
            i <= beats.len(),
            m == beat_models(beats@),
            found_sync == exists|a: int, k: int| 0 <= a < i && 0 <= k < m[a].len() && #[trigger] m[a][k].sync,
            found_async == exists|a: int, k: int| 0 <= a < i && 0 <= k < m[a].len() && !#[trigger] m[a][k].sync,
        decreases beats.len() - i,
    {
        let throws = &beats[i].throws;
        assert(m[i as int] == throw_models(throws@));
        let mut k: usize = 0;
        while k < throws.len()
            invariant
                i < beats.len(),
                k <= throws.len(),
                m == beat_models(beats@),
                throws@ == beats@[i as int].throws@,
                m[i as int] == throw_models(throws@),
                found_sync == ((exists|a: int, q: int| 0 <= a < i && 0 <= q < m[a].len() && #[trigger] m[a][q].sync)
                    || exists|q: int| 0 <= q < k && #[trigger] m[i as int][q].sync),
                found_async == ((exists|a: int, q: int| 0 <= a < i && 0 <= q < m[a].len() && !#[trigger] m[a][q].sync)
                    || exists|q: int| 0 <= q < k && !#[trigger] m[i as int][q].sync),
            decreases throws.len() - k,
        {
            assert(m[i as int][k as int] == throws@[k as int]@);
            if throws[k].sync {
                found_sync = true;
                assert(m[i as int][k as int].sync);
            } else {
                found_async = true;
                assert(!m[i as int][k as int].sync);
            }
            k = k + 1;
        }
        proof {
            if found_sync {
                if !(exists|a: int, q: int| 0 <= a < i && 0 <= q < m[a].len() && #[trigger] m[a][q].sync) {
                    let q = choose|q: int| 0 <= q < k && #[trigger] m[i as int][q].sync;
                    assert(0 <= i < i + 1 && 0 <= q < m[i as int].len() && m[i as int][q].sync);
                }
            }
            if found_async {
                if !(exists|a: int, q: int| 0 <= a < i && 0 <= q < m[a].len() && !#[trigger] m[a][q].sync) {
                    let q = choose|q: int| 0 <= q < k && !#[trigger] m[i as int][q].sync;
                    assert(0 <= i < i + 1 && 0 <= q < m[i as int].len() && !m[i as int][q].sync);
                }
            }
        }
        i = i + 1;
    }
    (found_sync, found_async)
}

/// The throws of `a` followed by copies of those of `b`.
fn joined_throws(a: &Vec<ThrowSpec>, b: &Vec<ThrowSpec>) -> (r: Vec<ThrowSpec>)
    ensures
        throw_models(r@) == throw_models(a@) + throw_models(b@),
{
    let mut r: Vec<ThrowSpec> = Vec::new();
    let mut i: usize = 0;
    while i < a.len()
        invariant
            i <= a.len(),
            throw_models(r@) =~= throw_models(a@).take(i as int),
        decreases a.len() - i,
    {
        let ghost before = throw_models(r@);
        r.push(copy_throw(&a[i]));
        assert(throw_models(r@) =~= before.push(a@[i as int]@));
        assert(throw_models(a@).take(i as int + 1) =~= throw_models(a@).take(i as int).push(a@[i as int]@));
        i = i + 1;
    }
    let mut j: usize = 0;
    while j < b.len()
        invariant
            j <= b.len(),
            throw_models(r@) =~= throw_models(a@) + throw_models(b@).take(j as int),
        decreases b.len() - j,
    {
        let ghost before = throw_models(r@);
        r.push(copy_throw(&b[j]));
        assert(throw_models(r@) =~= before.push(b@[j as int]@));
        assert(throw_models(b@).take(j as int + 1) =~= throw_models(b@).take(j as int).push(b@[j as int]@));
        j = j + 1;
    }
    assert(throw_models(b@).take(b.len() as int) =~= throw_models(b@));
    r
}

pub open spec fn optional_count(o: Option<usize>) -> Option<int> {
    match o {
        Some(b) => Some(b as int),
        None => None,
    }
}

pub open spec fn parsed_entries(v: Seq<ParsedPassingThrows>) -> Seq<Seq<(int, Seq<ThrowModel>)>> {
    Seq::new(v.len(), |k: int| entry_models(v[k].entries@))
}

/// Reads a passing group, the text between `<` and `>`. `global_odd` is the parity of the
/// beat it starts on (`global`).
fn parse_general_passing_group(
    group: &Vec<char>,
    Ghost(global): Ghost<int>,
    global_odd: bool,
    state: &mut GrammarState,
) -> (r: Result<Vec<Beat>, String>)
    requires
        group@.len() + 2 <= usize::MAX,
        grammar_ok(old(state)@),
        (global % 2 == 1) == global_odd,
    ensures
        grammar_ok(final(state)@),
        match r {
            Ok(b) => passing_group(group@, global, old(state)@) == Ok::<(Seq<Seq<ThrowModel>>, GrammarModel), Seq<char>>(
                (beat_models(b@), final(state)@),
            ),
            Err(e) => passing_group(group@, global, old(state)@) == Err::<(Seq<Seq<ThrowModel>>, GrammarModel), Seq<char>>(e@),
        },
{
    let parts = split_top_level(group, '|');
    let ghost pv = views(parts@);
    proof {
        lemma_split_scan_count(group@, '|');
    }
    if parts.len() == 0 {
        return Err("Passing group contains no jugglers".to_owned());
    }
    match state.require_jugglers(parts.len()) {
        Ok(()) => {},
        Err(e) => {
            return Err(e);
        },
    }
    let ghost g1 = state@;
    let mut parsed: Vec<ParsedPassingThrows> = Vec::new();
    let mut group_beats: Option<usize> = None;
    let mut j: usize = 0;
    assert(parsed_entries(parsed@) =~= Seq::<Seq<(int, Seq<ThrowModel>)>>::empty());
    while j < parts.len()
        invariant
            j <= parts.len(),
            parts.len() < usize::MAX,
            pv == views(parts@),
            pv == split_top(group@, '|'),
            g1.jugglers == Some(parts.len()),
            grammar_ok(g1),
            require_jugglers(old(state)@, parts.len()) == Ok::<GrammarModel, Seq<char>>(g1),
            state@ == (GrammarModel { right_on_even: state.right_on_even@, hand_fixed: state.hand_fixed@, ..g1 }),
            state.right_on_even@.len() == parts.len(),
            state.hand_fixed@.len() == parts.len(),
            parsed.len() == j,
            (j == 0) == (group_beats is None),
            forall|k: int| 0 <= k < j ==> #[trigger] parsed@[k].beats == group_beats->0,
            forall|k: int, q: int| 0 <= k < j && 0 <= q < parsed@[k].entries@.len() ==> #[trigger] parsed@[k].entries@[q].beat_offset < parsed@[k].beats,
            (global % 2 == 1) == global_odd,
            passing_parts(pv, 0, global, g1.right_on_even, g1.hand_fixed, None, Seq::empty()) == passing_parts(
                pv,
                j as int,
                global,
                state.right_on_even@,
                state.hand_fixed@,
                optional_count(group_beats),
                parsed_entries(parsed@),
            ),
        decreases parts.len() - j,
    {
        assert(pv[j as int] == parts@[j as int]@);
        let p = match parse_passing_throws(
            &parts[j],
            j + 1,
            Ghost(global),
            global_odd,
            &mut state.right_on_even,
            &mut state.hand_fixed,
        ) {
            Ok(p) => p,
            Err(e) => {
                return Err(e);
            },
        };
        match group_beats {
            Some(expected) => {
                if expected != p.beats {
                    return Err("Inconsistent number of beats between jugglers".to_owned());
                }
            },
            None => {},
        }
        group_beats = Some(p.beats);
        let ghost before = parsed_entries(parsed@);
        let ghost pe = entry_models(p.entries@);
        parsed.push(p);
        assert(parsed_entries(parsed@) =~= before.push(pe));
        j = j + 1;
    }
    let count: usize = match group_beats {
        Some(c) => c,
        None => 0,
    };
    let ghost pe = parsed_entries(parsed@);
    let ghost init = Seq::new(count as nat, |i: int| Seq::<ThrowModel>::empty());
    let mut beats: Vec<Beat> = Vec::new();
    let mut c: usize = 0;
    while c < count
        invariant
            c <= count,
            beat_models(beats@) =~= Seq::new(c as nat, |i: int| Seq::<ThrowModel>::empty()),
        decreases count - c,
    {
        let ghost before = beat_models(beats@);
        let empty: Vec<ThrowSpec> = Vec::new();
        assert(throw_models(empty@) =~= Seq::<ThrowModel>::empty());
        beats.push(Beat { throws: empty });
        assert(beat_models(beats@) =~= before.push(Seq::<ThrowModel>::empty()));
        c = c + 1;
    }
    assert(pe.skip(0) =~= pe);
    let mut k: usize = 0;
    while k < parsed.len()
        invariant
            k <= parsed.len(),
            pe == parsed_entries(parsed@),
            beats.len() == count,
            forall|a: int| 0 <= a < parsed.len() ==> #[trigger] parsed@[a].beats == count,
            forall|a: int, q: int| 0 <= a < parsed.len() && 0 <= q < parsed@[a].entries@.len() ==> #[trigger] parsed@[a].entries@[q].beat_offset < parsed@[a].beats,
            merge_parts(init, pe) == merge_parts(beat_models(beats@), pe.skip(k as int)),
        decreases parsed.len() - k,
    {
        let ghost at_start = beat_models(beats@);
        let entries = &parsed[k].entries;
        let ghost em = entry_models(entries@);
        assert(pe[k as int] == em);
        assert(em.skip(0) =~= em);
        let mut i: usize = 0;
        while i < entries.len()
            invariant
                i <= entries.len(),
                k < parsed.len(),
                entries@ == parsed@[k as int].entries@,
                em == entry_models(entries@),
                beats.len() == count,
                parsed@[k as int].beats == count,
                forall|q: int| 0 <= q < entries@.len() ==> #[trigger] entries@[q].beat_offset < count,
                add_entries(at_start, em) == add_entries(beat_models(beats@), em.skip(i as int)),
            decreases entries.len() - i,
        {
            let off = entries[i].beat_offset;
            let ghost cur = beat_models(beats@);
            let joined = joined_throws(&beats[off].throws, &entries[i].throws);
            assert(em.skip(i as int)[0] == em[i as int]);
            assert(em.skip(i as int).drop_first() =~= em.skip(i as int + 1));
            assert(em[i as int] == (off as int, throw_models(entries@[i as int].throws@)));
            beats.set(off, Beat { throws: joined });
            assert(beat_models(beats@) =~= add_entry(cur, em[i as int]));
            i = i + 1;
        }
        assert(em.skip(entries.len() as int) =~= Seq::<(int, Seq<ThrowModel>)>::empty());
        assert(pe.skip(k as int)[0] == pe[k as int]);
        assert(pe.skip(k as int).drop_first() =~= pe.skip(k as int + 1));
        k = k + 1;
    }
    assert(pe.skip(parsed.len() as int) =~= Seq::<Seq<(int, Seq<ThrowModel>)>>::empty());
    let (has_sync, has_async) = throw_kinds(&beats);
    if has_sync {
        state.saw_sync = true;
    }
    if has_async {
        state.saw_async = true;
    }
    Ok(beats)
}

// ---------------------------------------------------------------------------------------
// Whole patterns: throws, multiplexes `[..]`, synchronous pairs `(a,b)` (with `!` for no
// rest beat), repeated groups `(..^n)`, passing groups `<..|..>`, hand letters `L` and
// `R`, and a final `*` that repeats the pattern with the hands switched.
// ---------------------------------------------------------------------------------------

/// The beats with every throw made from the other hand, the hand fixed.
pub open spec fn switched(beats: Seq<Seq<ThrowModel>>) -> Seq<Seq<ThrowModel>> {
    Seq::new(
        beats.len(),
        |i: int|
            Seq::new(
                beats[i].len(),
                |k: int| ThrowModel { hand: other_hand(beats[i][k].hand), hand_fixed: true, ..beats[i][k] },
            ),
    )
}

/// Whether only whitespace follows position `pos`.
pub open spec fn only_ws_after(s: Seq<char>, pos: int) -> bool {
    forall|j: int| pos < j < s.len() ==> is_ws(#[trigger] s[j])
}

/// The context of a single juggler's asynchronous throw on beat `beat`.
pub open spec fn solo_context(beat: int, g: GrammarModel) -> ThrowContext {
    ThrowContext {
        source_juggler: 1,
        default_target_juggler: 1,
        hand: async_hand(beat, g.right_on_even[0]),
        hand_fixed: g.hand_fixed[0],
        sync: false,
        allow_pass: false,
    }
}

/// Reads a pattern from `pos` on. `base` is the number of the beat the text starts on, `acc`
/// the beats read so far, `g` the state; gives all the beats and the final state.
pub open spec fn fragment(s: Seq<char>, pos: int, base: int, acc: Seq<Seq<ThrowModel>>, g: GrammarModel) -> Result<(Seq<Seq<ThrowModel>>, GrammarModel), Seq<char>>
    decreases s.len(), s.len() - pos, 0int,
{
    if pos < 0 || pos >= s.len() {
        Ok((acc, g))
    } else {
        let c = s[pos];
        let beat = base + acc.len();
        if is_ws(c) {
            fragment(s, pos + 1, base, acc, g)
        } else if c == '*' {
            if !only_ws_after(s, pos) {
                Err("Switch-repeat '*' must terminate its pattern"@)
            } else {
                Ok((acc + switched(acc), GrammarModel { explicit_switch: true, ..g }))
            }
        } else if c == '?' {
            Err("Wildcard transitions are not implemented by Juggling Lab"@)
        } else if c == '<' {
            match closing_position(s, pos, 0, '<', '>') {
                None => Err("Invalid passing group: missing '>'"@),
                Some(close) => match passing_group(s.subrange(pos + 1, close), beat, g) {
                    Err(e) => Err(e),
                    Ok((group_beats, g2)) => {
                        proof {
                            lemma_closing_position(s, pos, 0, '<', '>');
                        }
                        fragment(s, close + 1, base, acc + group_beats, g2)
                    },
                },
            }
        } else if c == '(' {
            match closing_position(s, pos, 0, '(', ')') {
                None => Err("Invalid grouped pattern: missing ')'"@),
                Some(close) => {
                    proof {
                        lemma_closing_position(s, pos, 0, '(', ')');
                    }
                    let inner = s.subrange(pos + 1, close);
                    match repeat_suffix(inner) {
                        Some((body_end, repeats)) => {
                            proof {
                                lemma_repeat_suffix(inner);
                            }
                            match repeated(inner.subrange(0, body_end), repeats as int, base, acc, g) {
                                Err(e) => Err(e),
                                Ok((acc2, g2)) => fragment(s, close + 1, base, acc2, g2),
                            }
                        },
                        None => match require_jugglers(g, 1) {
                            Err(e) => Err(e),
                            Ok(g1) => {
                                let slots = split_top(inner, ',');
                                if slots.len() != 2 {
                                    Err("Invalid synchronous group: ("@ + inner + ")"@)
                                } else {
                                    match sync_slot(trim(slots[0]), Hand::Left) {
                                        Err(e) => Err(e),
                                        Ok(left) => match sync_slot(trim(slots[1]), Hand::Right) {
                                            Err(e) => Err(e),
                                            Ok(right) => {
                                                let g2 = GrammarModel { saw_sync: true, ..g1 };
                                                let acc2 = acc.push(left + right);
                                                if close + 1 < s.len() && s[close + 1] == '!' {
                                                    fragment(s, close + 2, base, acc2, g2)
                                                } else {
                                                    fragment(s, close + 1, base, acc2.push(Seq::empty()), g2)
                                                }
                                            },
                                        },
                                    }
                                }
                            },
                        },
                    }
                },
            }
        } else if c == '[' {
            match require_jugglers(g, 1) {
                Err(e) => Err(e),
                Ok(g1) => match closing_position(s, pos, 0, '[', ']') {
                    None => Err("Invalid multiplex: missing ']'"@),
                    Some(close) => match multiplex_list(s.subrange(pos + 1, close), 0, solo_context(beat, g1), Seq::empty()) {
                        Err(e) => Err(e),
                        Ok(throws) => {
                            proof {
                                lemma_closing_position(s, pos, 0, '[', ']');
                            }
                            fragment(s, close + 1, base, acc.push(throws), GrammarModel { saw_async: true, ..g1 })
                        },
                    },
                },
            }
        } else if c == 'L' || c == 'R' {
            match require_jugglers(g, 1) {
                Err(e) => Err(e),
                Ok(g1) => {
                    let left = c == 'L';
                    let roe = if beat % 2 == 0 { !left } else { left };
                    fragment(
                        s,
                        pos + 1,
                        base,
                        acc,
                        GrammarModel {
                            right_on_even: g1.right_on_even.update(0, roe),
                            hand_fixed: g1.hand_fixed.update(0, true),
                            ..g1
                        },
                    )
                },
            }
        } else if starts_throw(c) {
            match require_jugglers(g, 1) {
                Err(e) => Err(e),
                Ok(g1) => match throw_at(s, pos, solo_context(beat, g1)) {
                    Err(e) => Err(e),
                    Ok((t, np)) => {
                        proof {
                            lemma_throw_at(s, pos, solo_context(beat, g1));
                        }
                        fragment(s, np, base, acc.push(seq![t]), GrammarModel { saw_async: true, ..g1 })
                    },
                },
            }
        } else {
            Err("Unexpected character in siteswap: "@ + seq![c])
        }
    }
}

/// The body of a group read `k` more times, each time after the beats read so far.
pub open spec fn repeated(body: Seq<char>, k: int, base: int, acc: Seq<Seq<ThrowModel>>, g: GrammarModel) -> Result<(Seq<Seq<ThrowModel>>, GrammarModel), Seq<char>>
    decreases body.len(), body.len() + 1, k,
{
    if k <= 0 {
        Ok((acc, g))
    } else {
        match fragment(body, 0, base + acc.len(), Seq::empty(), g) {
            Err(e) => Err(e),
            Ok((nested, g2)) => repeated(body, k - 1, base, acc + nested, g2),
        }
    }
}

/// Copies of the beats with every throw made from the other hand, the hand fixed.
fn switched_beats(beats: &Vec<Beat>) -> (r: Vec<Beat>)
    ensures
        beat_models(r@) == switched(beat_models(beats@)),
{
    let ghost target = switched(beat_models(beats@));
    let mut out: Vec<Beat> = Vec::new();
    let mut i: usize = 0;
    while i < beats.len()
        invariant
            i <= beats.len(),
            target == switched(beat_models(beats@)),
            beat_models(out@) =~= target.take(i as int),
        decreases beats.len() - i,
    {
        let throws = &beats[i].throws;
        let ghost row = target[i as int];
        assert(beat_models(beats@)[i as int] == throw_models(throws@));
        let mut v: Vec<ThrowSpec> = Vec::new();
        let mut k: usize = 0;
        while k < throws.len()
            invariant
                i < beats.len(),
                k <= throws.len(),
                throws@ == beats@[i as int].throws@,
                target == switched(beat_models(beats@)),
                row == target[i as int],
                row.len() == throws.len(),
                throw_models(v@) =~= row.take(k as int),
            decreases throws.len() - k,
        {
            let mut t = copy_throw(&throws[k]);
            t.hand = opposite_siteswap_hand(t.hand);
            t.hand_fixed = true;
            let ghost before = throw_models(v@);
            v.push(t);
            assert(throw_models(v@) =~= before.push(row[k as int]));
            assert(row.take(k as int + 1) =~= row.take(k as int).push(row[k as int]));
            k = k + 1;
        }
        assert(row.take(throws.len() as int) =~= row);
        assert(throw_models(v@) =~= row);
        let ghost before = beat_models(out@);
        out.push(Beat { throws: v });
        assert(beat_models(out@) =~= before.push(row));
        assert(target.take(i as int + 1) =~= target.take(i as int).push(row));
        i = i + 1;
    }
    assert(target.take(beats.len() as int) =~= target);
    out
}

fn append_beats(beats: &mut Vec<Beat>, more: &mut Vec<Beat>)
    ensures
        beat_models(final(beats)@) == beat_models(old(beats)@) + beat_models(old(more)@),
{
    let ghost a = beat_models(beats@);
    let ghost b = beat_models(more@);
    beats.append(more);
    assert(beat_models(beats@) =~= a + b);
}

/// Reads the passing group that opens at `pos`.
fn read_passing_at(
    chars: &Vec<char>,
    pos: usize,
    Ghost(base): Ghost<int>,
    base_odd: bool,
    beats: &mut Vec<Beat>,
    state: &mut GrammarState,
) -> (r: Result<usize, String>)
    requires
        pos < chars.len(),
        chars@[pos as int] == '<',
        grammar_ok(old(state)@),
        (base % 2 == 1) == base_odd,
    ensures
        grammar_ok(final(state)@),
        match r {
            Ok(np) => pos < np <= chars.len() && fragment(chars@, pos as int, base, beat_models(old(beats)@), old(state)@)
                == fragment(chars@, np as int, base, beat_models(final(beats)@), final(state)@),
            Err(e) => fragment(chars@, pos as int, base, beat_models(old(beats)@), old(state)@) == Err::<
                (Seq<Seq<ThrowModel>>, GrammarModel),
                Seq<char>,
            >(e@),
        },
{
    let ghost s = chars@;
    let close = match matching_delimiter(chars, pos, '<', '>') {
        Some(c) => c,
        None => {
            return Err("Invalid passing group: missing '>'".to_owned());
        },
    };
    proof {
        lemma_closing_position(s, pos as int, 0, '<', '>');
        assert(!is_ws('<'));
    }
    let group = slice_of(chars, pos + 1, close);
    let odd = base_odd != (beats.len() % 2 == 1);
    proof {
        lemma_parity(base, beats.len() as int, base_odd);
    }
    let mut group_beats = match parse_general_passing_group(&group, Ghost(base + beats.len()), odd, state) {
        Ok(b) => b,
        Err(e) => {
            return Err(e);
        },
    };
    append_beats(beats, &mut group_beats);
    Ok(close + 1)
}

/// Reads the group that opens at `pos`: a repeated group `(..^n)` or a synchronous pair.
#[verifier::rlimit(80)]
#[verifier::spinoff_prover]
fn read_group_at(
    chars: &Vec<char>,
    pos: usize,
    Ghost(base): Ghost<int>,
    base_odd: bool,
    beats: &mut Vec<Beat>,
    state: &mut GrammarState,
) -> (r: Result<usize, String>)
    requires
        pos < chars.len(),
        chars@[pos as int] == '(',
        grammar_ok(old(state)@),
        (base % 2 == 1) == base_odd,
    ensures
        grammar_ok(final(state)@),
        match r {
            Ok(np) => pos < np <= chars.len() && fragment(chars@, pos as int, base, beat_models(old(beats)@), old(state)@)
                == fragment(chars@, np as int, base, beat_models(final(beats)@), final(state)@),
            Err(e) => fragment(chars@, pos as int, base, beat_models(old(beats)@), old(state)@) == Err::<
                (Seq<Seq<ThrowModel>>, GrammarModel),
                Seq<char>,
            >(e@),
        },
    decreases chars@.len(), 0int,
{
    let ghost s = chars@;
    let ghost acc0 = beat_models(beats@);
    let ghost g0 = state@;
    proof {
        assert(!is_ws('('));
    }
    let close = match matching_delimiter(chars, pos, '(', ')') {
        Some(c) => c,
        None => {
            return Err("Invalid grouped pattern: missing ')'".to_owned());
        },
    };
    proof {
        lemma_closing_position(s, pos as int, 0, '(', ')');
    }
    let inner = slice_of(chars, pos + 1, close);
    match grouped_repeat(&inner) {
        Some((body_end, repeats)) => {
            proof {
                lemma_repeat_suffix(inner@);
            }
            let body = slice_of(&inner, 0, body_end);
            let mut i: usize = 0;
            while i < repeats
                invariant
                    i <= repeats,
                    grammar_ok(state@),
                    (base % 2 == 1) == base_odd,
                    body@.len() < chars@.len(),
                    s == chars@,
                    close < chars.len(),
                    pos < close,
                    acc0 == beat_models(old(beats)@),
                    g0 == old(state)@,
                    fragment(s, pos as int, base, acc0, g0) == (match repeated(body@, repeats as int, base, acc0, g0) {
                        Err(e) => Err(e),
                        Ok((a2, g2)) => fragment(s, close + 1, base, a2, g2),
                    }),
                    repeated(body@, repeats as int, base, acc0, g0) == repeated(
                        body@,
                        (repeats - i) as int,
                        base,
                        beat_models(beats@),
                        state@,
                    ),
                decreases repeats - i,
            {
                let odd = base_odd != (beats.len() % 2 == 1);
                proof {
                    lemma_parity(base, beats.len() as int, base_odd);
                }
                let ghost cur = beat_models(beats@);
                let ghost st = state@;
                let mut nested = match parse_pattern_fragment(&body, Ghost(base + beats.len()), odd, state) {
                    Ok(b) => b,
                    Err(e) => {
                        assert(repeated(body@, (repeats - i) as int, base, cur, st) == Err::<
                            (Seq<Seq<ThrowModel>>, GrammarModel),
                            Seq<char>,
                        >(e@));
                        return Err(e);
                    },
                };
                append_beats(beats, &mut nested);
                i = i + 1;
            }
            Ok(close + 1)
        },
        None => {
            match state.require_jugglers(1) {
                Ok(()) => {},
                Err(e) => {
                    return Err(e);
                },
            }
            let slots = split_top_level(&inner, ',');
            if slots.len() != 2 {
                return Err(text_error("Invalid synchronous group: (", &inner, ")"));
            }
            assert(views(slots@)[0] == slots@[0]@ && views(slots@)[1] == slots@[1]@);
            let first = trim_chars(&slots[0]);
            let mut throws = match parse_sync_slot(&first, Hand::Left) {
                Ok(v) => v,
                Err(e) => {
                    return Err(e);
                },
            };
            let second = trim_chars(&slots[1]);
            let mut more = match parse_sync_slot(&second, Hand::Right) {
                Ok(v) => v,
                Err(e) => {
                    return Err(e);
                },
            };
            let ghost lm = throw_models(throws@);
            let ghost rm = throw_models(more@);
            throws.append(&mut more);
            assert(throw_models(throws@) =~= lm + rm);
            state.saw_sync = true;
            let ghost before = beat_models(beats@);
            beats.push(Beat { throws });
            assert(beat_models(beats@) =~= before.push(lm + rm));
            let mut np = close + 1;
            if np < chars.len() && chars[np] == '!' {
                np = np + 1;
            } else {
                let ghost before2 = beat_models(beats@);
                let empty: Vec<ThrowSpec> = Vec::new();
                assert(throw_models(empty@) =~= Seq::<ThrowModel>::empty());
                beats.push(Beat { throws: empty });
                assert(beat_models(beats@) =~= before2.push(Seq::<ThrowModel>::empty()));
            }
            Ok(np)
        },
    }
}

/// Reads a pattern. `base_odd` is the parity of the beat it starts on (`base`).
#[verifier::rlimit(80)]
#[verifier::spinoff_prover]
fn parse_pattern_fragment(
    chars: &Vec<char>,
    Ghost(base): Ghost<int>,
    base_odd: bool,
    state: &mut GrammarState,
) -> (r: Result<Vec<Beat>, String>)
    requires
        grammar_ok(old(state)@),
        (base % 2 == 1) == base_odd,
    ensures
        grammar_ok(final(state)@),
        match r {
            Ok(b) => fragment(chars@, 0, base, Seq::empty(), old(state)@) == Ok::<(Seq<Seq<ThrowModel>>, GrammarModel), Seq<char>>(
                (beat_models(b@), final(state)@),
            ),
            Err(e) => fragment(chars@, 0, base, Seq::empty(), old(state)@) == Err::<(Seq<Seq<ThrowModel>>, GrammarModel), Seq<char>>(e@),
        },
    decreases chars@.len(), 1int,
{
    let ghost s = chars@;
    let ghost g0 = state@;
    let mut beats: Vec<Beat> = Vec::new();
    let mut pos: usize = 0;
    assert(beat_models(beats@) =~= Seq::<Seq<ThrowModel>>::empty());
    while pos < chars.len()
        invariant
            s == chars@,
            pos <= chars.len(),
            grammar_ok(state@),
            (base % 2 == 1) == base_odd,
            g0 == old(state)@,
            fragment(s, 0, base, Seq::empty(), g0) == fragment(s, pos as int, base, beat_models(beats@), state@),
        decreases chars.len() - pos,
    {
        let ch = chars[pos];
        let odd = base_odd != (beats.len() % 2 == 1);
        proof {
            lemma_parity(base, beats.len() as int, base_odd);
        }
        if is_whitespace(ch) {
            pos = pos + 1;
        } else if ch == '*' {
            let mut j: usize = pos + 1;
            while j < chars.len() && is_whitespace(chars[j])
                invariant
                    pos < j <= chars.len(),
                    s == chars@,
                    forall|q: int| pos < q < j ==> is_ws(#[trigger] s[q]),
                decreases chars.len() - j,
            {
                j = j + 1;
            }
            if j < chars.len() {
                assert(!is_ws(s[j as int]));
                return Err("Switch-repeat '*' must terminate its pattern".to_owned());
            }
            let mut sw = switched_beats(&beats);
            append_beats(&mut beats, &mut sw);
            state.explicit_switch = true;
            return Ok(beats);
        } else if ch == '?' {
            return Err("Wildcard transitions are not implemented by Juggling Lab".to_owned());
        } else if ch == '<' {
            pos = match read_passing_at(chars, pos, Ghost(base), base_odd, &mut beats, state) {
                Ok(np) => np,
                Err(e) => {
                    return Err(e);
                },
            };
        } else if ch == '(' {
            pos = match read_group_at(chars, pos, Ghost(base), base_odd, &mut beats, state) {
                Ok(np) => np,
                Err(e) => {
                    return Err(e);
                },
            };
        } else if ch == '[' {
            match state.require_jugglers(1) {
                Ok(()) => {},
                Err(e) => {
                    return Err(e);
                },
            }
            let close = match matching_delimiter(chars, pos, '[', ']') {
                Some(c) => c,
                None => {
                    return Err("Invalid multiplex: missing ']'".to_owned());
                },
            };
            proof {
                lemma_closing_position(s, pos as int, 0, '[', ']');
            }
            let hand = hand_for_async_beat(odd, state.right_on_even[0]);
            let ctx = ThrowContext::new(1, 1, hand, state.hand_fixed[0]);
            assert(ctx == solo_context(base + beats@.len(), state@));
            let inner = slice_of(chars, pos + 1, close);
            let throws = match parse_multiplex_slice(&inner, ctx) {
                Ok(v) => v,
                Err(e) => {
                    return Err(e);
                },
            };
            state.saw_async = true;
            let ghost before = beat_models(beats@);
            let ghost tm = throw_models(throws@);
            beats.push(Beat { throws });
            assert(beat_models(beats@) =~= before.push(tm));
            pos = close + 1;
        } else if ch == 'L' || ch == 'R' {
            match state.require_jugglers(1) {
                Ok(()) => {},
                Err(e) => {
                    return Err(e);
                },
            }
            let left = ch == 'L';
            let value = if !odd {
                !left
            } else {
                left
            };
            state.right_on_even.set(0, value);
            state.hand_fixed.set(0, true);
            pos = pos + 1;
        } else if is_throw_value_start(ch) {
            match state.require_jugglers(1) {
                Ok(()) => {},
                Err(e) => {
                    return Err(e);
                },
            }
            let hand = hand_for_async_beat(odd, state.right_on_even[0]);
            let ctx = ThrowContext::new(1, 1, hand, state.hand_fixed[0]);
            assert(ctx == solo_context(base + beats@.len(), state@));
            proof {
                lemma_throw_at(s, pos as int, ctx);
            }
            let (t, np) = match parse_throw_at(chars, pos, ctx) {
                Ok(x) => x,
                Err(e) => {
                    return Err(e);
                },
            };
            state.saw_async = true;
            let ghost before = beat_models(beats@);
            let ghost tm = t@;
            let throws = vec![t];
            assert(throw_models(throws@) =~= seq![tm]);
            beats.push(Beat { throws });
            assert(beat_models(beats@) =~= before.push(seq![tm]));
            pos = np;
        } else {
            let one = vec![ch];
            assert(one@ =~= seq![ch]);
            return Err(joined_error("Unexpected character in siteswap: ", &one));
        }
    }
    Ok(beats)
}

/// Whether no throw crosses and no hand is fixed.
pub open spec fn vanilla(beats: Seq<Seq<ThrowModel>>) -> bool {
    forall|i: int, k: int|
        0 <= i < beats.len() && 0 <= k < beats[i].len() ==> !(#[trigger] beats[i][k]).cross && !beats[i][k].hand_fixed
}

pub fn beats_are_vanilla_async(beats: &Vec<Beat>) -> (r: bool)
    ensures
        r == vanilla(beat_models(beats@)),
{
    let ghost m = beat_models(beats@);
    let mut i: usize = 0;
    while i < beats.len()
        invariant
            i <= beats.len(),
            m == beat_models(beats@),
            forall|a: int, k: int| 0 <= a < i && 0 <= k < m[a].len() ==> !(#[trigger] m[a][k]).cross && !m[a][k].hand_fixed,
        decreases beats.len() - i,
    {
        let throws = &beats[i].throws;
        assert(m[i as int] == throw_models(throws@));
        let mut k: usize = 0;
        while k < throws.len()
            invariant
                i < beats.len(),
                k <= throws.len(),
                m == beat_models(beats@),
                throws@ == beats@[i as int].throws@,
                m[i as int] == throw_models(throws@),
                forall|a: int, q: int| 0 <= a < i && 0 <= q < m[a].len() ==> !(#[trigger] m[a][q]).cross && !m[a][q].hand_fixed,
                forall|q: int| 0 <= q < k ==> !(#[trigger] m[i as int][q]).cross && !m[i as int][q].hand_fixed,
            decreases throws.len() - k,
        {
            assert(m[i as int][k as int] == throws@[k as int]@);
            if throws[k].cross || throws[k].hand_fixed {
                return false;
            }
            k = k + 1;
        }
        i = i + 1;
    }
    true
}

/// A pattern as read: its beats, whether it is synchronous, the number of jugglers, and
/// whether it is a plain asynchronous pattern (no crossing throws, no fixed hands, no `*`).
pub struct ParsedPattern {
    pub beats: Vec<Beat>,
    pub sync: bool,
    pub jugglers: usize,
    pub vanilla_async: bool,
}

/// What reading the trimmed text of a pattern gives.
pub open spec fn siteswap_reading(pattern: Seq<char>) -> Result<(Seq<Seq<ThrowModel>>, GrammarModel), Seq<char>> {
    fragment(trim(pattern), 0, 0, Seq::empty(), initial_grammar())
}

/// Reads a siteswap in the generalized notation. The pattern has one juggler unless a
/// passing group says otherwise; it is synchronous when it holds synchronous throws and no
/// others.
pub fn parse_siteswap_pattern(pattern: &str) -> (r: Result<ParsedPattern, String>)
    ensures
        match siteswap_reading(pattern@) {
            Ok((beats, g)) => r matches Ok(p) && beat_models(p.beats@) == beats && p.jugglers == (match g.jugglers {
                Some(n) => n,
                None => 1,
            }) && p.sync == (g.saw_sync && !g.saw_async) && p.vanilla_async == (!g.explicit_switch && !p.sync
                && vanilla(beats)),
            Err(m) => r matches Err(e) && e@ == m,
        },
{
    let text = chars_of(pattern);
    let chars = trim_chars(&text);
    let mut state = GrammarState::new();
    let beats = match parse_pattern_fragment(&chars, Ghost(0), false, &mut state) {
        Ok(b) => b,
        Err(e) => {
            return Err(e);
        },
    };
    let jugglers = match state.jugglers {
        Some(n) => n,
        None => 1,
    };
    let sync = state.saw_sync && !state.saw_async;
    let vanilla_async = !state.explicit_switch && !sync && beats_are_vanilla_async(&beats);
    Ok(ParsedPattern { beats, sync, jugglers, vanilla_async })
}

/// The sum of the values of the throws of a beat, and of all beats.
pub open spec fn row_total(row: Seq<ThrowModel>) -> int
    decreases row.len(),
{
    if row.len() == 0 {
        0
    } else {
        row_total(row.drop_last()) + row.last().value
    }
}

pub open spec fn throw_total(beats: Seq<Seq<ThrowModel>>) -> int
    decreases beats.len(),
{
    if beats.len() == 0 {
        0
    } else {
        throw_total(beats.drop_last()) + row_total(beats.last())
    }
}

/// The highest value of a throw, where there is a throw.
pub open spec fn row_highest(row: Seq<ThrowModel>) -> Option<u32>
    decreases row.len(),
{
    if row.len() == 0 {
        None
    } else {
        let v = row.last().value;
        match row_highest(row.drop_last()) {
            Some(m) => Some(if m >= v { m } else { v }),
            None => Some(v),
        }
    }
}

pub open spec fn highest(beats: Seq<Seq<ThrowModel>>) -> Option<u32>
    decreases beats.len(),
{
    if beats.len() == 0 {
        None
    } else {
        match (highest(beats.drop_last()), row_highest(beats.last())) {
            (Some(a), Some(b)) => Some(if a >= b { a } else { b }),
            (Some(a), None) => Some(a),
            (None, b) => b,
        }
    }
}

proof fn lemma_totals_grow(beats: Seq<Seq<ThrowModel>>)
    ensures
        0 <= throw_total(beats),
        forall|i: int| 0 <= i <= beats.len() ==> throw_total(#[trigger] beats.take(i)) <= throw_total(beats),
    decreases beats.len(),
{
    if beats.len() > 0 {
        let rest = beats.drop_last();
        lemma_totals_grow(rest);
        lemma_row_total(beats.last());
        assert forall|i: int| 0 <= i <= beats.len() implies throw_total(#[trigger] beats.take(i)) <= throw_total(beats) by {
            if i < beats.len() {
                assert(beats.take(i) =~= rest.take(i));
            } else {
                assert(beats.take(i) =~= beats);
            }
        }
    } else {
        assert forall|i: int| 0 <= i <= beats.len() implies throw_total(#[trigger] beats.take(i)) <= throw_total(beats) by {
            assert(beats.take(i) =~= beats);
        }
    }
}

proof fn lemma_row_total(row: Seq<ThrowModel>)
    ensures
        0 <= row_total(row),
        forall|k: int| 0 <= k <= row.len() ==> row_total(#[trigger] row.take(k)) <= row_total(row),
    decreases row.len(),
{
    if row.len() > 0 {
        let rest = row.drop_last();
        lemma_row_total(rest);
        assert forall|k: int| 0 <= k <= row.len() implies row_total(#[trigger] row.take(k)) <= row_total(row) by {
            if k < row.len() {
                assert(row.take(k) =~= rest.take(k));
            } else {
                assert(row.take(k) =~= row);
            }
        }
    } else {
        assert forall|k: int| 0 <= k <= row.len() implies row_total(#[trigger] row.take(k)) <= row_total(row) by {
            assert(row.take(k) =~= row);
        }
    }
}

/// The number of objects a pattern needs (its values over its beats) and its highest
/// throw (3 where it has no throw). A pattern with no beats, or whose values do not
/// average to a whole number, is refused.
pub fn pattern_counts(beats: &Vec<Beat>) -> (r: Result<(usize, u32), String>)
    requires
        throw_total(beat_models(beats@)) <= u32::MAX,
    ensures
        ({
            let m = beat_models(beats@);
            if m.len() == 0 {
                r matches Err(e) && e@ == "The siteswap pattern contains no readable throws"@
            } else if throw_total(m) % (m.len() as int) != 0 {
                r matches Err(e) && e@ == "The siteswap pattern does not have an integer average"@
            } else {
                r matches Ok((balls, max_throw)) && balls == throw_total(m) / (m.len() as int) && max_throw == (match highest(m) {
                    Some(v) => v,
                    None => 3,
                })
            }
        }),
{
    let ghost m = beat_models(beats@);
    if beats.len() == 0 {
        return Err("The siteswap pattern contains no readable throws".to_owned());
    }
    proof {
        lemma_totals_grow(m);
    }
    let mut total: u32 = 0;
    let mut best: Option<u32> = None;
    let mut i: usize = 0;
    assert(m.take(0) =~= Seq::<Seq<ThrowModel>>::empty());
    while i < beats.len()
        invariant
            i <= beats.len(),
            m == beat_models(beats@),
            throw_total(m) <= u32::MAX,
            forall|j: int| 0 <= j <= m.len() ==> throw_total(#[trigger] m.take(j)) <= throw_total(m),
            total == throw_total(m.take(i as int)),
            best == highest(m.take(i as int)),
        decreases beats.len() - i,
    {
        let throws = &beats[i].throws;
        let ghost row = m[i as int];
        assert(row == throw_models(throws@));
        assert(m.take(i as int + 1).drop_last() =~= m.take(i as int));
        assert(m.take(i as int + 1).last() == row);
        assert(throw_total(m.take(i as int + 1)) == throw_total(m.take(i as int)) + row_total(row));
        proof {
            lemma_row_total(row);
        }
        let mut k: usize = 0;
        let mut row_best: Option<u32> = None;
        let ghost start = total;
        assert(row.take(0) =~= Seq::<ThrowModel>::empty());
        while k < throws.len()
            invariant
                i < beats.len(),
                k <= throws.len(),
                throws@ == beats@[i as int].throws@,
                row == throw_models(throws@),
                start + row_total(row) <= u32::MAX,
                forall|q: int| 0 <= q <= row.len() ==> row_total(#[trigger] row.take(q)) <= row_total(row),
                total == start + row_total(row.take(k as int)),
                row_best == row_highest(row.take(k as int)),
            decreases throws.len() - k,
        {
            let v = throws[k].value;
            assert(row.take(k as int + 1).drop_last() =~= row.take(k as int));
            assert(row.take(k as int + 1).last() == throws@[k as int]@);
            assert(row_total(row.take(k as int + 1)) <= row_total(row));
            total = total + v;
            row_best = match row_best {
                Some(b) => Some(if b >= v { b } else { v }),
                None => Some(v),
            };
            k = k + 1;
        }
        assert(row.take(throws.len() as int) =~= row);
        best = match (best, row_best) {
            (Some(a), Some(b)) => Some(if a >= b { a } else { b }),
            (Some(a), None) => Some(a),
            (None, b) => b,
        };
        i = i + 1;
    }
    assert(m.take(beats.len() as int) =~= m);
    let count = beats.len();
    if (total as usize) % count != 0 {
        return Err("The siteswap pattern does not have an integer average".to_owned());
    }
    let max_throw = match best {
        Some(v) => v,
        None => 3,
    };
    Ok(((total as usize) / count, max_throw))
}

// ---------------------------------------------------------------------------------------
// The `key=value;...` text a siteswap is given in.
// ---------------------------------------------------------------------------------------

/// The `key=value` pairs of the `;`-separated pieces that hold an `=`, split at the first
/// `=`, both sides trimmed; pieces without `=` are skipped.
pub open spec fn key_values(pieces: Seq<Seq<char>>) -> Seq<(Seq<char>, Seq<char>)>
    decreases pieces.len(),
{
    if pieces.len() == 0 {
        Seq::empty()
    } else {
        let rest = key_values(pieces.drop_last());
        let p = pieces.last();
        let k = index_of_char(p, '=');
        if k >= 0 {
            rest.push((trim(p.subrange(0, k)), trim(p.subrange(k + 1, p.len() as int))))
        } else {
            rest
        }
    }
}

pub open spec fn config_params(config: Seq<char>) -> Seq<(Seq<char>, Seq<char>)> {
    key_values(split_on(config, ';'))
}

pub open spec fn pair_views(v: Seq<(String, String)>) -> Seq<(Seq<char>, Seq<char>)> {
    Seq::new(v.len(), |i: int| (v[i].0@, v[i].1@))
}

pub fn parse_params(config: &str) -> (r: Vec<(String, String)>)
    ensures
        pair_views(r@) == config_params(config@),
{
    let text = chars_of(config);
    let pieces = split_chars(&text, ';');
    let ghost pv = views(pieces@);
    let mut out: Vec<(String, String)> = Vec::new();
    let mut i: usize = 0;
    assert(pv.take(0) =~= Seq::<Seq<char>>::empty());
    assert(pair_views(out@) =~= Seq::<(Seq<char>, Seq<char>)>::empty());
    while i < pieces.len()
        invariant
            i <= pieces.len(),
            pv == views(pieces@),
            pv == split_on(config@, ';'),
            pair_views(out@) == key_values(pv.take(i as int)),
        decreases pieces.len() - i,
    {
        let piece = &pieces[i];
        assert(pv[i as int] == piece@);
        assert(pv.take(i as int + 1).drop_last() =~= pv.take(i as int));
        assert(pv.take(i as int + 1).last() == piece@);
        match find_char(piece, '=') {
            Some(k) => {
                let key = slice_of(piece, 0, k);
                let value = slice_of(piece, k + 1, piece.len());
                let key = trim_chars(&key);
                let value = trim_chars(&value);
                let ghost before = pair_views(out@);
                out.push((string_from_chars(&key), string_from_chars(&value)));
                assert(pair_views(out@) =~= before.push((key@, value@)));
            },
            None => {},
        }
        i = i + 1;
    }
    assert(pv.take(pieces.len() as int) =~= pv);
    out
}

/// `true` or `false` in any case, around whitespace.
pub open spec fn boolean_text(value: Seq<char>) -> Result<bool, Seq<char>> {
    let t = lower_all(trim(value));
    if t == "true"@ {
        Ok(true)
    } else if t == "false"@ {
        Ok(false)
    } else {
        Err("Invalid boolean value: "@ + value)
    }
}

pub fn parse_bool(value: &str) -> (r: Result<bool, String>)
    ensures
        match boolean_text(value@) {
            Ok(b) => r matches Ok(x) && x == b,
            Err(m) => r matches Err(e) && e@ == m,
        },
{
    let text = chars_of(value);
    let t = trim_chars(&text);
    let low = to_ascii_lowercase(&t);
    if is_text(&low, "true") {
        Ok(true)
    } else if is_text(&low, "false") {
        Ok(false)
    } else {
        Err(joined_error("Invalid boolean value: ", &text))
    }
}

} // verus!

verus! {

// ---------------------------------------------------------------------------------------
// The switch-repeat `*`: a pattern followed by `*` reads as the pattern followed by its
// copy with the hands switched.
// ---------------------------------------------------------------------------------------

proof fn lemma_close_extend(p: Seq<char>, c: char, pos: int, depth: nat, open: char, close: char)
    requires
        0 <= pos <= p.len(),
        c != open,
        c != close,
    ensures
        closing_position(p.push(c), pos, depth, open, close) == closing_position(p, pos, depth, open, close),
    decreases p.len() - pos,
{
    let s = p.push(c);
    if pos < p.len() {
        assert(s[pos] == p[pos]);
        if p[pos] == open {
            lemma_close_extend(p, c, pos + 1, depth + 1, open, close);
        } else if p[pos] == close {
            if depth > 1 {
                lemma_close_extend(p, c, pos + 1, (depth - 1) as nat, open, close);
            }
        } else {
            lemma_close_extend(p, c, pos + 1, depth, open, close);
        }
    } else {
        assert(s[pos] == c);
        assert(closing_position(s, pos + 1, depth, open, close) is None);
    }
}

proof fn lemma_index_extend(p: Seq<char>, c: char, x: char, i: int)
    requires
        0 <= i <= p.len(),
        c != x,
    ensures
        index_from(p.push(c), x, i) == index_from(p, x, i),
    decreases p.len() - i,
{
    let s = p.push(c);
    if i < p.len() {
        assert(s[i] == p[i]);
        if p[i] != x {
            lemma_index_extend(p, c, x, i + 1);
        }
    } else {
        assert(s[i] == c);
        assert(index_from(s, x, i + 1) == -1);
    }
}

proof fn lemma_runs_extend(p: Seq<char>, c: char, i: int)
    requires
        0 <= i <= p.len(),
        !is_digit(c),
        !is_upper(c),
    ensures
        digits_end(p.push(c), i) == digits_end(p, i),
        capitals_end(p.push(c), i) == capitals_end(p, i),
    decreases p.len() - i,
{
    let s = p.push(c);
    if i < p.len() {
        assert(s[i] == p[i]);
        lemma_runs_extend(p, c, i + 1);
    } else {
        assert(s[i] == c);
    }
}

/// A throw reads the same whether or not a `*` follows the text.
proof fn lemma_throw_extend(p: Seq<char>, pos: int, ctx: ThrowContext)
    requires
        0 <= pos < p.len(),
    ensures
        throw_at(p.push('*'), pos, ctx) == throw_at(p, pos, ctx),
{
    let s = p.push('*');
    assert(s[pos] == p[pos]);
    lemma_index_extend(p, '*', '}', pos + 1);
    lemma_index_from(p, '}', pos + 1);
    let close = index_from(p, '}', pos + 1);
    if close >= 0 {
        assert(s.subrange(pos + 1, close) =~= p.subrange(pos + 1, close));
    }
    assert(throw_head(s, pos) == throw_head(p, pos));
    match throw_head(p, pos) {
        Err(e) => {},
        Ok((value, p1)) => {
            lemma_throw_at(p, pos, ctx);
            assert(0 <= p1 <= p.len()) by {
                if p[pos] == '{' {
                    lemma_index_from(p, '}', pos + 1);
                }
            }
            if p1 < p.len() {
                assert(s[p1] == p[p1]);
            } else {
                assert(s[p1] == '*');
            }
            let cross = p1 < p.len() && p[p1] == 'x';
            let p2 = if cross { p1 + 1 } else { p1 };
            if p2 < p.len() {
                assert(s[p2] == p[p2]);
            } else if p2 == p.len() {
                assert(s[p2] == '*');
            }
            let pass = ctx.allow_pass && p2 < p.len() && p[p2] == 'p';
            let p3 = if pass { p2 + 1 } else { p2 };
            lemma_runs_extend(p, '*', p3);
            lemma_runs(p, p3);
            let p4 = if pass { digits_end(p, p3) } else { p3 };
            assert(s.subrange(p3, p4) =~= p.subrange(p3, p4));
            if p4 < p.len() {
                assert(s[p4] == p[p4]);
                lemma_runs_extend(p, '*', p4 + 1);
                lemma_runs(p, p4 + 1);
                let p5 = capitals_end(p, p4 + 1);
                assert(s.subrange(p4, p5) =~= p.subrange(p4, p5));
                if p5 < p.len() {
                    assert(s[p5] == p[p5]);
                } else {
                    assert(s[p5] == '*');
                }
            } else {
                assert(s[p4] == '*');
            }
        },
    }
}

/// A pattern and the same pattern followed by `*` read alike up to the `*`; there the
/// beats read so far are followed by their hand-switched copy.
proof fn lemma_star_fragment(p: Seq<char>, pos: int, base: int, acc: Seq<Seq<ThrowModel>>, g: GrammarModel)
    requires
        0 <= pos <= p.len(),
        forall|i: int| 0 <= i < p.len() ==> p[i] != '*',
    ensures
        fragment(p, pos, base, acc, g) matches Ok((b, g2)) ==> fragment(p.push('*'), pos, base, acc, g) == Ok::<
            (Seq<Seq<ThrowModel>>, GrammarModel),
            Seq<char>,
        >((b + switched(b), GrammarModel { explicit_switch: true, ..g2 })),
    decreases p.len() - pos,
{
    let s = p.push('*');
    if pos == p.len() {
        assert(s[pos] == '*');
        assert(only_ws_after(s, pos));
    } else {
        assert(s[pos] == p[pos]);
        let c = p[pos];
        let beat = base + acc.len();
        if is_ws(c) {
            lemma_star_fragment(p, pos + 1, base, acc, g);
        } else if c == '*' || c == '?' {
        } else if c == '<' {
            lemma_close_extend(p, '*', pos, 0, '<', '>');
            match closing_position(p, pos, 0, '<', '>') {
                None => {},
                Some(close) => {
                    lemma_closing_position(p, pos, 0, '<', '>');
                    assert(s.subrange(pos + 1, close) =~= p.subrange(pos + 1, close));
                    match passing_group(p.subrange(pos + 1, close), beat, g) {
                        Err(e) => {},
                        Ok((gb, g2)) => {
                            lemma_star_fragment(p, close + 1, base, acc + gb, g2);
                        },
                    }
                },
            }
        } else if c == '(' {
            lemma_close_extend(p, '*', pos, 0, '(', ')');
            match closing_position(p, pos, 0, '(', ')') {
                None => {},
                Some(close) => {
                    lemma_closing_position(p, pos, 0, '(', ')');
                    let inner = p.subrange(pos + 1, close);
                    assert(s.subrange(pos + 1, close) =~= inner);
                    match repeat_suffix(inner) {
                        Some((body_end, repeats)) => {
                            lemma_repeat_suffix(inner);
                            match repeated(inner.subrange(0, body_end), repeats as int, base, acc, g) {
                                Err(e) => {},
                                Ok((acc2, g2)) => {
                                    lemma_star_fragment(p, close + 1, base, acc2, g2);
                                },
                            }
                        },
                        None => match require_jugglers(g, 1) {
                            Err(e) => {},
                            Ok(g1) => {
                                let slots = split_top(inner, ',');
                                if slots.len() == 2 {
                                    match sync_slot(trim(slots[0]), Hand::Left) {
                                        Err(e) => {},
                                        Ok(left) => match sync_slot(trim(slots[1]), Hand::Right) {
                                            Err(e) => {},
                                            Ok(right) => {
                                                let g2 = GrammarModel { saw_sync: true, ..g1 };
                                                let acc2 = acc.push(left + right);
                                                if close + 1 < p.len() {
                                                    assert(s[close + 1] == p[close + 1]);
                                                } else {
                                                    assert(s[close + 1] == '*');
                                                }
                                                if close + 1 < p.len() && p[close + 1] == '!' {
                                                    lemma_star_fragment(p, close + 2, base, acc2, g2);
                                                } else {
                                                    lemma_star_fragment(p, close + 1, base, acc2.push(Seq::empty()), g2);
                                                }
                                            },
                                        },
                                    }
                                }
                            },
                        },
                    }
                },
            }
        } else if c == '[' {
            match require_jugglers(g, 1) {
                Err(e) => {},
                Ok(g1) => {
                    lemma_close_extend(p, '*', pos, 0, '[', ']');
                    match closing_position(p, pos, 0, '[', ']') {
                        None => {},
                        Some(close) => {
                            lemma_closing_position(p, pos, 0, '[', ']');
                            assert(s.subrange(pos + 1, close) =~= p.subrange(pos + 1, close));
                            match multiplex_list(p.subrange(pos + 1, close), 0, solo_context(beat, g1), Seq::empty()) {
                                Err(e) => {},
                                Ok(throws) => {
                                    lemma_star_fragment(p, close + 1, base, acc.push(throws), GrammarModel { saw_async: true, ..g1 });
                                },
                            }
                        },
                    }
                },
            }
        } else if c == 'L' || c == 'R' {
            match require_jugglers(g, 1) {
                Err(e) => {},
                Ok(g1) => {
                    let left = c == 'L';
                    let roe = if beat % 2 == 0 { !left } else { left };
                    lemma_star_fragment(
                        p,
                        pos + 1,
                        base,
                        acc,
                        GrammarModel {
                            right_on_even: g1.right_on_even.update(0, roe),
                            hand_fixed: g1.hand_fixed.update(0, true),
                            ..g1
                        },
                    );
                },
            }
        } else if starts_throw(c) {
            match require_jugglers(g, 1) {
                Err(e) => {},
                Ok(g1) => {
                    lemma_throw_extend(p, pos, solo_context(beat, g1));
                    match throw_at(p, pos, solo_context(beat, g1)) {
                        Err(e) => {},
                        Ok((t, np)) => {
                            lemma_throw_at(p, pos, solo_context(beat, g1));
                            lemma_star_fragment(p, np, base, acc.push(seq![t]), GrammarModel { saw_async: true, ..g1 });
                        },
                    }
                },
            }
        }
    }
}

/// The switch-repeat: a pattern (without `*`, and without whitespace at either end)
/// followed by `*` reads as the pattern's beats followed by the same beats with every
/// throw made from the other hand, fixed there, and the pattern marked as switched.
pub proof fn lemma_switch_repeat(p: Seq<char>)
    requires
        forall|i: int| 0 <= i < p.len() ==> p[i] != '*',
        p.len() > 0 ==> !is_ws(p[0]) && !is_ws(p.last()),
    ensures
        siteswap_reading(p) matches Ok((b, g)) ==> siteswap_reading(p.push('*')) == Ok::<
            (Seq<Seq<ThrowModel>>, GrammarModel),
            Seq<char>,
        >((b + switched(b), GrammarModel { explicit_switch: true, ..g })),
{
    let s = p.push('*');
    assert(s.last() == '*');
    assert(!is_ws('*'));
    assert(crate::text::trim_end(s) == s);
    if p.len() > 0 {
        assert(s[0] == p[0]);
        assert(crate::text::trim_start(p) == p);
        assert(crate::text::trim_end(p) == p);
        assert(crate::text::trim_start(s) == s);
    } else {
        assert(p =~= Seq::<char>::empty());
        assert(s =~= seq!['*']);
        assert(crate::text::trim_start(s) == s);
        assert(crate::text::trim_start(p) == p);
    }
    assert(trim(s) == s);
    assert(trim(p) == p);
    lemma_star_fragment(p, 0, 0, Seq::empty(), initial_grammar());
    assert(Seq::<Seq<ThrowModel>>::empty() + switched(Seq::empty()) =~= Seq::<Seq<ThrowModel>>::empty());
}


// ---------------------------------------------------------------------------------------
// Passes are only where `p` is written.
// ---------------------------------------------------------------------------------------

/// Every throw of the entries goes to the juggler who throws it.
pub open spec fn entries_self_targeted(e: Seq<(int, Seq<ThrowModel>)>) -> bool {
    forall|i: int, j: int|
        0 <= i < e.len() && 0 <= j < e[i].1.len() ==> (#[trigger] e[i].1[j]).target_juggler
            == e[i].1[j].source_juggler
}

/// Every throw goes to the juggler who throws it.
pub open spec fn throws_self_targeted(v: Seq<ThrowModel>) -> bool {
    forall|j: int| 0 <= j < v.len() ==> (#[trigger] v[j]).target_juggler == v[j].source_juggler
}

proof fn lemma_subrange_lacks(s: Seq<char>, a: int, b: int, c: char)
    requires
        0 <= a <= b <= s.len(),
        !s.contains(c),
    ensures
        !s.subrange(a, b).contains(c),
{
    if s.subrange(a, b).contains(c) {
        let k = choose|k: int| 0 <= k < s.subrange(a, b).len() && s.subrange(a, b)[k] == c;
        assert(s[a + k] == c);
    }
}

proof fn lemma_trim_lacks(s: Seq<char>, c: char)
    requires
        !s.contains(c),
    ensures
        !trim_start(s).contains(c),
        !trim_end(s).contains(c),
        !trim(s).contains(c),
    decreases s.len(),
{
    if s.len() > 0 {
        lemma_subrange_lacks(s, 1, s.len() as int, c);
        assert(s.drop_first() =~= s.subrange(1, s.len() as int));
        lemma_subrange_lacks(s, 0, s.len() - 1, c);
        assert(s.drop_last() =~= s.subrange(0, s.len() - 1));
        lemma_trim_lacks(s.drop_first(), c);
        lemma_trim_lacks(s.drop_last(), c);
    }
    lemma_trim_end_lacks(trim_start(s), c);
}

proof fn lemma_trim_end_lacks(s: Seq<char>, c: char)
    requires
        !s.contains(c),
    ensures
        !trim_end(s).contains(c),
    decreases s.len(),
{
    if s.len() > 0 {
        lemma_subrange_lacks(s, 0, s.len() - 1, c);
        assert(s.drop_last() =~= s.subrange(0, s.len() - 1));
        lemma_trim_end_lacks(s.drop_last(), c);
    }
}

proof fn lemma_trim_start_lacks(s: Seq<char>, c: char)
    requires
        !s.contains(c),
    ensures
        !trim_start(s).contains(c),
    decreases s.len(),
{
    if s.len() > 0 {
        lemma_subrange_lacks(s, 1, s.len() as int, c);
        assert(s.drop_first() =~= s.subrange(1, s.len() as int));
        lemma_trim_start_lacks(s.drop_first(), c);
    }
}

proof fn lemma_split_scan_lacks(s: Seq<char>, d: char, c: char)
    requires
        !s.contains(c),
        c != d,
    ensures
        !split_scan(s, d).current.contains(c),
        forall|i: int|
            0 <= i < split_scan(s, d).pieces.len() ==> !(#[trigger] split_scan(s, d).pieces[i]).contains(c),
    decreases s.len(),
{
    if s.len() > 0 {
        lemma_subrange_lacks(s, 0, s.len() - 1, c);
        assert(s.drop_last() =~= s.subrange(0, s.len() - 1));
        lemma_split_scan_lacks(s.drop_last(), d, c);
        let st = split_scan(s.drop_last(), d);
        let x = s.last();
        assert(x != c) by {
            assert(s[s.len() - 1] == x);
        }
        lemma_trim_start_lacks(st.current, c);
        lemma_trim_end_lacks(trim_start(st.current), c);
        assert(!st.current.push(x).contains(c)) by {
            if st.current.push(x).contains(c) {
                let k = choose|k: int| 0 <= k < st.current.push(x).len() && st.current.push(x)[k] == c;
                if k < st.current.len() {
                    assert(st.current[k] == c);
                }
            }
        }
        let nt = split_step(st, x, d);
        assert forall|i: int| 0 <= i < nt.pieces.len() implies !(#[trigger] nt.pieces[i]).contains(c) by {
            if i < st.pieces.len() {
                assert(nt.pieces[i] == st.pieces[i]);
            }
        }
        assert(!Seq::<char>::empty().contains(c));
    }
}

proof fn lemma_split_top_lacks(s: Seq<char>, d: char, c: char)
    requires
        !s.contains(c),
        c != d,
    ensures
        forall|i: int| 0 <= i < split_top(s, d).len() ==> !(#[trigger] split_top(s, d)[i]).contains(c),
{
    lemma_split_scan_lacks(s, d, c);
    let st = split_scan(s, d);
    lemma_trim_start_lacks(st.current, c);
    lemma_trim_end_lacks(trim_start(st.current), c);
    assert forall|i: int| 0 <= i < split_top(s, d).len() implies !(#[trigger] split_top(s, d)[i]).contains(c) by {
        if i < st.pieces.len() {
            assert(split_top(s, d)[i] == st.pieces[i]);
        }
    }
}

/// A throw read where no `p` is written goes to the reader's default juggler and is thrown
/// by its juggler.
pub proof fn lemma_throw_without_pass(s: Seq<char>, pos: int, ctx: ThrowContext)
    requires
        0 <= pos < s.len(),
        !s.contains('p'),
    ensures
        throw_at(s, pos, ctx) matches Ok((t, np)) ==> t.target_juggler == ctx.default_target_juggler
            && t.source_juggler == ctx.source_juggler,
{
    match throw_head(s, pos) {
        Err(e) => {},
        Ok((value, p1)) => {
            let cross = p1 < s.len() && s[p1] == 'x';
            let p2 = if cross { p1 + 1 } else { p1 };
            if 0 <= p2 < s.len() {
                assert(s[p2] != 'p');
            }
        },
    }
}

proof fn lemma_throw_list_self(s: Seq<char>, pos: int, ctx: ThrowContext, acc: Seq<ThrowModel>)
    requires
        !s.contains('p'),
        ctx.default_target_juggler == ctx.source_juggler,
        throws_self_targeted(acc),
    ensures
        throw_list(s, pos, ctx, acc) matches Ok(v) ==> throws_self_targeted(v),
    decreases s.len() - pos,
{
    if 0 <= pos < s.len() {
        if is_ws(s[pos]) || s[pos] == ',' {
            lemma_throw_list_self(s, pos + 1, ctx, acc);
        } else {
            lemma_throw_at(s, pos, ctx);
            lemma_throw_without_pass(s, pos, ctx);
            match throw_at(s, pos, ctx) {
                Err(e) => {},
                Ok((t, np)) => {
                    let acc2 = acc.push(t);
                    assert(throws_self_targeted(acc2)) by {
                        assert forall|j: int| 0 <= j < acc2.len() implies (#[trigger] acc2[j]).target_juggler
                            == acc2[j].source_juggler by {
                            if j < acc.len() {
                                assert(acc2[j] == acc[j]);
                            }
                        }
                    }
                    lemma_throw_list_self(s, np, ctx, acc2);
                },
            }
        }
    }
}

proof fn lemma_passing_slot_self(slot: Seq<char>, source: usize, hand: Hand, hand_fixed: bool, sync: bool)
    requires
        !slot.contains('p'),
    ensures
        passing_slot(slot, source, hand, hand_fixed, sync) matches Ok(v) ==> throws_self_targeted(v),
{
    if slot.len() == 0 || slot == seq!['-'] {
        let v = seq![rest_throw(hand, source, sync)];
        assert(throws_self_targeted(v));
    } else {
        let inner = if bracketed(slot) {
            slot.subrange(1, slot.len() - 1)
        } else {
            slot
        };
        if bracketed(slot) {
            lemma_subrange_lacks(slot, 1, slot.len() - 1, 'p');
        }
        let ctx = ThrowContext {
            source_juggler: source,
            default_target_juggler: source,
            hand,
            hand_fixed,
            sync,
            allow_pass: true,
        };
        lemma_throw_list_self(inner, 0, ctx, Seq::empty());
    }
}

/// In one juggler's part of a passing group, a throw goes to another juggler only where a
/// `p` is written: read from a text without `p`, every throw (bare, in a multiplex or in a
/// synchronous pair) goes to the juggler who throws it.
pub proof fn lemma_passing_part_without_pass(s: Seq<char>, pos: int, source: usize, global: int, st: PassingScan)
    requires
        !s.contains('p'),
        entries_self_targeted(st.entries),
    ensures
        passing_throws(s, pos, source, global, st) matches Ok(r) ==> entries_self_targeted(r.entries),
    decreases s.len() - pos,
{
    if 0 <= pos < s.len() {
        let c = s[pos];
        let idx = source - 1;
        if is_ws(c) || c == ',' || c == '.' {
            lemma_passing_part_without_pass(s, pos + 1, source, global, st);
        } else if c == 'R' || c == 'L' {
            let left = c == 'L';
            let roe = if (global + st.beats) % 2 == 0 { !left } else { left };
            lemma_passing_part_without_pass(
                s,
                pos + 1,
                source,
                global,
                PassingScan { right_on_even: st.right_on_even.update(idx, roe), hand_fixed: st.hand_fixed.update(idx, true), ..st },
            );
        } else if c == '(' {
            lemma_closing_position(s, pos, 0, '(', ')');
            match closing_position(s, pos, 0, '(', ')') {
                None => {},
                Some(close) => {
                    let group = s.subrange(pos + 1, close);
                    lemma_subrange_lacks(s, pos + 1, close, 'p');
                    let parts = split_top(group, ',');
                    lemma_split_top_lacks(group, ',', 'p');
                    if parts.len() >= 2 {
                        lemma_trim_lacks(parts[0], 'p');
                        lemma_trim_lacks(parts[1], 'p');
                        lemma_passing_slot_self(trim(parts[0]), source, Hand::Left, true, true);
                        lemma_passing_slot_self(trim(parts[1]), source, Hand::Right, true, true);
                        match passing_slot(trim(parts[0]), source, Hand::Left, true, true) {
                            Err(e) => {},
                            Ok(left_throws) => match passing_slot(trim(parts[1]), source, Hand::Right, true, true) {
                                Err(e) => {},
                                Ok(right_throws) => {
                                    let both = left_throws + right_throws;
                                    let entries = st.entries.push((st.beats, both));
                                    assert(entries_self_targeted(entries)) by {
                                        assert forall|i: int, j: int|
                                            0 <= i < entries.len() && 0 <= j < entries[i].1.len() implies (
                                            #[trigger] entries[i].1[j]).target_juggler == entries[i].1[j].source_juggler by {
                                            if i < st.entries.len() {
                                                assert(entries[i] == st.entries[i]);
                                            } else if j < left_throws.len() {
                                                assert(both[j] == left_throws[j]);
                                            } else {
                                                assert(both[j] == right_throws[j - left_throws.len()]);
                                            }
                                        }
                                    }
                                    if close + 1 < s.len() && s[close + 1] == '!' {
                                        lemma_passing_part_without_pass(s, close + 2, source, global, PassingScan { beats: st.beats + 1, entries, ..st });
                                    } else {
                                        lemma_passing_part_without_pass(s, close + 1, source, global, PassingScan { beats: st.beats + 2, entries, ..st });
                                    }
                                },
                            },
                        }
                    }
                },
            }
        } else if c == '[' {
            lemma_closing_position(s, pos, 0, '[', ']');
            match closing_position(s, pos, 0, '[', ']') {
                None => {},
                Some(close) => {
                    let group = s.subrange(pos + 1, close);
                    lemma_subrange_lacks(s, pos + 1, close, 'p');
                    let hand = async_hand(global + st.beats, st.right_on_even[idx]);
                    let ctx = ThrowContext {
                        source_juggler: source,
                        default_target_juggler: source,
                        hand,
                        hand_fixed: st.hand_fixed[idx],
                        sync: false,
                        allow_pass: true,
                    };
                    lemma_throw_list_self(group, 0, ctx, Seq::empty());
                    match throw_list(group, 0, ctx, Seq::empty()) {
                        Err(e) => {},
                        Ok(throws) => {
                            let entries = st.entries.push((st.beats, throws));
                            assert(entries_self_targeted(entries)) by {
                                assert forall|i: int, j: int|
                                    0 <= i < entries.len() && 0 <= j < entries[i].1.len() implies (
                                    #[trigger] entries[i].1[j]).target_juggler == entries[i].1[j].source_juggler by {
                                    if i < st.entries.len() {
                                        assert(entries[i] == st.entries[i]);
                                    }
                                }
                            }
                            lemma_passing_part_without_pass(s, close + 1, source, global, PassingScan { beats: st.beats + 1, entries, ..st });
                        },
                    }
                },
            }
        } else if c == ']' || c == ')' || c == '>' || c == '|' {
        } else {
            let hand = async_hand(global + st.beats, st.right_on_even[idx]);
            let ctx = ThrowContext {
                source_juggler: source,
                default_target_juggler: source,
                hand,
                hand_fixed: st.hand_fixed[idx],
                sync: false,
                allow_pass: true,
            };
            lemma_throw_at(s, pos, ctx);
            lemma_throw_without_pass(s, pos, ctx);
            match throw_at(s, pos, ctx) {
                Err(e) => {},
                Ok((t, np)) => {
                    let entries = st.entries.push((st.beats, seq![t]));
                    assert(entries_self_targeted(entries)) by {
                        assert forall|i: int, j: int|
                            0 <= i < entries.len() && 0 <= j < entries[i].1.len() implies (
                            #[trigger] entries[i].1[j]).target_juggler == entries[i].1[j].source_juggler by {
                            if i < st.entries.len() {
                                assert(entries[i] == st.entries[i]);
                            }
                        }
                    }
                    lemma_passing_part_without_pass(s, np, source, global, PassingScan { beats: st.beats + 1, entries, ..st });
                },
            }
        }
    }
}

} // verus!
