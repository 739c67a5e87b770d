use vstd::prelude::*;
use crate::permutation::{lcm, lcm_spec, lemma_lcm_common_multiple};
use crate::text::{
    chars_of, string_from_chars, push_all, push_str, push_decimal, decimal, is_ws, is_whitespace,
    is_digit, is_lower, is_upper, trim, trim_chars, slice_of, parsed_usize, parse_usize,
    index_from, lemma_index_from, index_of_char, find_char,
};

verus! {

// ---------------------------------------------------------------------------------------
// Hand siteswaps: an object siteswap, the hand siteswap that moves the hands, and the
// handspec that gives the hands to jugglers.
// ---------------------------------------------------------------------------------------

/// The value of a character in a hand siteswap: `0`-`9`, then `a` or `A` = 10 and so on.
pub open spec fn hss_value(c: char) -> Option<usize> {
    if is_digit(c) {
        Some(((c as u32) - ('0' as u32)) as usize)
    } else if is_lower(c) {
        Some(((c as u32) - ('a' as u32) + 10) as usize)
    } else if is_upper(c) {
        Some(((c as u32) - ('A' as u32) + 10) as usize)
    } else {
        None
    }
}

pub fn numeric_value(c: char) -> (r: Option<usize>)
    ensures
        r == hss_value(c),
        r matches Some(v) ==> v <= 35,
{
    if '0' <= c && c <= '9' {
        Some((c as u32 - '0' as u32) as usize)
    } else if 'a' <= c && c <= 'z' {
        Some((c as u32 - 'a' as u32 + 10) as usize)
    } else if 'A' <= c && c <= 'Z' {
        Some((c as u32 - 'A' as u32 + 10) as usize)
    } else {
        None
    }
}

/// A bounce modifier at `pos`: `B`, then `F` or `L`, or `H` and then optionally `F` or
/// `L`. Where it ends (at `pos` when there is none).
pub open spec fn bounce_end(s: Seq<char>, pos: int) -> int {
    if pos < s.len() && s[pos] == 'B' {
        let p = pos + 1;
        if p < s.len() && (s[p] == 'F' || s[p] == 'L') {
            p + 1
        } else if p < s.len() && s[p] == 'H' {
            if p + 1 < s.len() && (s[p + 1] == 'F' || s[p + 1] == 'L') {
                p + 2
            } else {
                p + 1
            }
        } else {
            p
        }
    } else {
        pos
    }
}

/// Reads the bounce modifier at `*pos` and moves past it.
pub fn parse_bounce_modifier(chars: &Vec<char>, pos: &mut usize) -> (r: String)
    requires
        *old(pos) <= chars.len(),
    ensures
        *final(pos) == bounce_end(chars@, *old(pos) as int),
        r@ == chars@.subrange(*old(pos) as int, *final(pos) as int),
{
    let start = *pos;
    if *pos >= chars.len() || chars[*pos] != 'B' {
        let empty: Vec<char> = Vec::new();
        assert(empty@ =~= chars@.subrange(start as int, start as int));
        return string_from_chars(&empty);
    }
    *pos = *pos + 1;
    if *pos < chars.len() && (chars[*pos] == 'F' || chars[*pos] == 'L') {
        *pos = *pos + 1;
    } else if *pos < chars.len() && chars[*pos] == 'H' {
        *pos = *pos + 1;
        if *pos < chars.len() && (chars[*pos] == 'F' || chars[*pos] == 'L') {
            *pos = *pos + 1;
        }
    }
    let text = slice_of(chars, start, *pos);
    string_from_chars(&text)
}

/// The error for a character that is not a throw, at position `pos` counted from 0.
pub open spec fn position_error(head: Seq<char>, pos: int) -> Seq<char> {
    head + decimal((pos + 1) as nat)
}

fn position_message(head: &str, pos: usize) -> (r: String)
    requires
        pos < usize::MAX,
    ensures
        r@ == position_error(head@, pos as int),
{
    let mut m: Vec<char> = Vec::new();
    push_str(&mut m, head);
    push_decimal(&mut m, (pos + 1) as u64);
    string_from_chars(&m)
}

/// The object siteswap: the throws of each beat (one, or several in a multiplex) and the
/// bounce modifier of each throw.
pub struct ObjectPattern {
    pub throws: Vec<Vec<char>>,
    pub bounce_modifiers: Vec<Vec<String>>,
}

pub open spec fn char_rows(v: Seq<Vec<char>>) -> Seq<Seq<char>> {
    Seq::new(v.len(), |i: int| v[i]@)
}

pub open spec fn text_rows(v: Seq<Vec<String>>) -> Seq<Seq<Seq<char>>> {
    Seq::new(v.len(), |i: int| Seq::new(v[i]@.len(), |k: int| v[i]@[k]@))
}

/// The throws of a multiplex from `pos` up to its `]`, after those in `beat`; gives the
/// throws, their modifiers, the running sum of values and the position of the `]`.
pub open spec fn multiplex_scan(s: Seq<char>, pos: int, beat: Seq<char>, mods: Seq<Seq<char>>, sum: int) -> Result<
    (Seq<char>, Seq<Seq<char>>, int, int),
    Seq<char>,
>
    decreases s.len() - pos,
{
    if pos < 0 || pos >= s.len() || s[pos] == ']' {
        Ok((beat, mods, sum, pos))
    } else if is_ws(s[pos]) || s[pos] == ',' {
        multiplex_scan(s, pos + 1, beat, mods, sum)
    } else {
        match hss_value(s[pos]) {
            None => Err(position_error("Invalid HSS object throw at position "@, pos)),
            Some(v) => {
                let e = bounce_end(s, pos + 1);
                multiplex_scan(s, e, beat.push(s[pos]), mods.push(s.subrange(pos + 1, e)), sum + v)
            },
        }
    }
}

pub proof fn lemma_multiplex_scan(s: Seq<char>, pos: int, beat: Seq<char>, mods: Seq<Seq<char>>, sum: int)
    requires
        0 <= pos <= s.len(),
    ensures
        multiplex_scan(s, pos, beat, mods, sum) matches Ok((b, m, t, p)) ==> pos <= p <= s.len(),
    decreases s.len() - pos,
{
    if pos < s.len() && s[pos] != ']' {
        if is_ws(s[pos]) || s[pos] == ',' {
            lemma_multiplex_scan(s, pos + 1, beat, mods, sum);
        } else if let Some(v) = hss_value(s[pos]) {
            let e = bounce_end(s, pos + 1);
            lemma_multiplex_scan(s, e, beat.push(s[pos]), mods.push(s.subrange(pos + 1, e)), sum + v);
        }
    }
}

/// The state of reading an object siteswap.
pub ghost struct ObjectScan {
    pub throws: Seq<Seq<char>>,
    pub modifiers: Seq<Seq<Seq<char>>>,
    pub sum: int,
    pub saw_throw: bool,
}

pub open spec fn object_scan(s: Seq<char>, pos: int, st: ObjectScan) -> Result<ObjectScan, Seq<char>>
    decreases s.len() - pos,
{
    if pos < 0 || pos >= s.len() {
        Ok(st)
    } else {
        let c = s[pos];
        if is_ws(c) || c == ',' || c == '.' {
            object_scan(s, pos + 1, st)
        } else if c == '[' {
            match multiplex_scan(s, pos + 1, Seq::empty(), Seq::empty(), st.sum) {
                Err(e) => Err(e),
                Ok((beat, mods, sum, p)) => {
                    proof {
                        lemma_multiplex_scan(s, pos + 1, Seq::empty(), Seq::empty(), st.sum);
                    }
                    if p >= s.len() || s[p] != ']' || beat.len() == 0 {
                        Err("Invalid HSS object multiplex syntax"@)
                    } else {
                        object_scan(
                            s,
                            p + 1,
                            ObjectScan {
                                throws: st.throws.push(beat),
                                modifiers: st.modifiers.push(mods),
                                sum,
                                saw_throw: true,
                            },
                        )
                    }
                },
            }
        } else {
            match hss_value(c) {
                None => Err(position_error("Invalid HSS object throw at position "@, pos)),
                Some(v) => {
                    let e = bounce_end(s, pos + 1);
                    object_scan(
                        s,
                        e,
                        ObjectScan {
                            throws: st.throws.push(seq![c]),
                            modifiers: st.modifiers.push(seq![s.subrange(pos + 1, e)]),
                            sum: st.sum + v,
                            saw_throw: true,
                        },
                    )
                },
            }
        }
    }
}

/// Each modifier followed by a space.
pub open spec fn spaced(mods: Seq<Seq<Seq<char>>>) -> Seq<Seq<Seq<char>>> {
    Seq::new(mods.len(), |i: int| Seq::new(mods[i].len(), |k: int| mods[i][k].push(' ')))
}

/// What reading an object siteswap gives: its beats and their modifiers, or the error.
pub open spec fn object_pattern(input: Seq<char>) -> Result<(Seq<Seq<char>>, Seq<Seq<Seq<char>>>), Seq<char>> {
    let start = ObjectScan { throws: Seq::empty(), modifiers: Seq::empty(), sum: 0, saw_throw: false };
    match object_scan(input, 0, start) {
        Err(e) => Err(e),
        Ok(st) => if !st.saw_throw || st.throws.len() == 0 {
            Err("HSS object siteswap is empty"@)
        } else if st.sum % (st.throws.len() as int) != 0 {
            Err("HSS object siteswap has an invalid average"@)
        } else {
            Ok((st.throws, spaced(st.modifiers)))
        },
    }
}

fn read_multiplex(chars: &Vec<char>, start: usize, sum0: usize) -> (r: Result<(Vec<char>, Vec<String>, usize, usize), String>)
    requires
        start <= chars.len(),
        chars.len() <= usize::MAX / 36,
        sum0 <= 35 * start,
    ensures
        match r {
            Ok((beat, mods, sum, p)) => multiplex_scan(chars@, start as int, Seq::empty(), Seq::empty(), sum0 as int)
                == Ok::<(Seq<char>, Seq<Seq<char>>, int, int), Seq<char>>(
                (beat@, Seq::new(mods@.len(), |k: int| mods@[k]@), sum as int, p as int),
            ) && sum <= 35 * p,
            Err(e) => multiplex_scan(chars@, start as int, Seq::empty(), Seq::empty(), sum0 as int) == Err::<
                (Seq<char>, Seq<Seq<char>>, int, int),
                Seq<char>,
            >(e@),
        },
{
    let ghost s = chars@;
    let mut beat: Vec<char> = Vec::new();
    let mut mods: Vec<String> = Vec::new();
    let mut sum = sum0;
    let mut pos = start;
    assert(Seq::new(mods@.len(), |k: int| mods@[k]@) =~= Seq::<Seq<char>>::empty());
    while pos < chars.len() && chars[pos] != ']'
        invariant
            s == chars@,
            start <= pos <= chars.len(),
            chars.len() <= usize::MAX / 36,
            sum <= 35 * pos,
            multiplex_scan(s, start as int, Seq::empty(), Seq::empty(), sum0 as int) == multiplex_scan(
                s,
                pos as int,
                beat@,
                Seq::new(mods@.len(), |k: int| mods@[k]@),
                sum as int,
            ),
        decreases chars.len() - pos,
    {
        let c = chars[pos];
        if is_whitespace(c) || c == ',' {
            pos = pos + 1;
        } else {
            let v = match numeric_value(c) {
                Some(v) => v,
                None => {
                    return Err(position_message("Invalid HSS object throw at position ", pos));
                },
            };
            beat.push(c);
            sum = sum + v;
            pos = pos + 1;
            let ghost from = pos as int;
            let ghost before = Seq::new(mods@.len(), |k: int| mods@[k]@);
            let m = parse_bounce_modifier(chars, &mut pos);
            mods.push(m);
            assert(Seq::new(mods@.len(), |k: int| mods@[k]@) =~= before.push(s.subrange(from, pos as int)));
        }
    }
    Ok((beat, mods, sum, pos))
}

/// Reads an object siteswap: throws and multiplexes in brackets, each throw with an
/// optional bounce modifier; whitespace, commas and dots between beats are skipped.
pub fn parse_object_siteswap(input: &str) -> (r: Result<ObjectPattern, String>)
    requires
        input@.len() <= usize::MAX / 36,
    ensures
        match object_pattern(input@) {
            Ok((throws, mods)) => r matches Ok(p) && char_rows(p.throws@) == throws && text_rows(p.bounce_modifiers@) == mods,
            Err(m) => r matches Err(e) && e@ == m,
        },
{
    let chars = chars_of(input);
    let ghost s = chars@;
    let ghost start = ObjectScan { throws: Seq::empty(), modifiers: Seq::empty(), sum: 0, saw_throw: false };
    let mut throws: Vec<Vec<char>> = Vec::new();
    let mut mods: Vec<Vec<String>> = Vec::new();
    let mut sum: usize = 0;
    let mut saw_throw = false;
    let mut pos: usize = 0;
    assert(char_rows(throws@) =~= Seq::<Seq<char>>::empty());
    assert(text_rows(mods@) =~= Seq::<Seq<Seq<char>>>::empty());
    while pos < chars.len()
        invariant
            s == chars@,
            s == input@,
            start == (ObjectScan { throws: Seq::empty(), modifiers: Seq::empty(), sum: 0, saw_throw: false }),
            pos <= chars.len(),
            chars.len() <= usize::MAX / 36,
            sum <= 35 * pos,
            object_scan(s, 0, start) == object_scan(
                s,
                pos as int,
                ObjectScan { throws: char_rows(throws@), modifiers: text_rows(mods@), sum: sum as int, saw_throw },
            ),
        decreases chars.len() - pos,
    {
        let c = chars[pos];
        if is_whitespace(c) || c == ',' || c == '.' {
            pos = pos + 1;
        } else if c == '[' {
            assert(!is_ws('['));
            let (beat, beat_mods, new_sum, p) = match read_multiplex(&chars, pos + 1, sum) {
                Ok(x) => x,
                Err(e) => {
                    return Err(e);
                },
            };
            proof {
                lemma_multiplex_scan(s, pos + 1, Seq::empty(), Seq::empty(), sum as int);
            }
            if p >= chars.len() || chars[p] != ']' || beat.len() == 0 {
                return Err("Invalid HSS object multiplex syntax".to_owned());
            }
            let ghost bm = Seq::new(beat_mods@.len(), |k: int| beat_mods@[k]@);
            let ghost t0 = char_rows(throws@);
            let ghost m0 = text_rows(mods@);
            let ghost bv = beat@;
            throws.push(beat);
            mods.push(beat_mods);
            assert(char_rows(throws@) =~= t0.push(bv));
            assert(text_rows(mods@) =~= m0.push(bm));
            sum = new_sum;
            saw_throw = true;
            pos = p + 1;
        } else {
            let v = match numeric_value(c) {
                Some(v) => v,
                None => {
                    return Err(position_message("Invalid HSS object throw at position ", pos));
                },
            };
            sum = sum + v;
            saw_throw = true;
            pos = pos + 1;
            let ghost from = pos as int;
            let m = parse_bounce_modifier(&chars, &mut pos);
            let ghost t0 = char_rows(throws@);
            let ghost m0 = text_rows(mods@);
            let one = vec![c];
            let one_mod = vec![m];
            assert(one@ =~= seq![c]);
            assert(Seq::new(one_mod@.len(), |k: int| one_mod@[k]@) =~= seq![s.subrange(from, pos as int)]);
            throws.push(one);
            mods.push(one_mod);
            assert(char_rows(throws@) =~= t0.push(seq![c]));
            assert(text_rows(mods@) =~= m0.push(seq![s.subrange(from, pos as int)]));
        }
    }
    if !saw_throw || throws.len() == 0 {
        return Err("HSS object siteswap is empty".to_owned());
    }
    if sum % throws.len() != 0 {
        return Err("HSS object siteswap has an invalid average".to_owned());
    }
    let ghost before = text_rows(mods@);
    let mut spaced_mods: Vec<Vec<String>> = Vec::new();
    let mut i: usize = 0;
    while i < mods.len()
        invariant
            i <= mods.len(),
            before == text_rows(mods@),
            text_rows(spaced_mods@) =~= spaced(before).take(i as int),
        decreases mods.len() - i,
    {
        let row = &mods[i];
        let mut out_row: Vec<String> = Vec::new();
        let mut k: usize = 0;
        while k < row.len()
            invariant
                i < mods.len(),
                k <= row.len(),
                row@ == mods@[i as int]@,
                before == text_rows(mods@),
                Seq::new(out_row@.len(), |q: int| out_row@[q]@) =~= spaced(before)[i as int].take(k as int),
            decreases row.len() - k,
        {
            let mut t = chars_of(row[k].as_str());
            t.push(' ');
            let ghost prev = Seq::new(out_row@.len(), |q: int| out_row@[q]@);
            let text = string_from_chars(&t);
            out_row.push(text);
            assert(Seq::new(out_row@.len(), |q: int| out_row@[q]@) =~= prev.push(spaced(before)[i as int][k as int]));
            assert(spaced(before)[i as int].take(k as int + 1) =~= spaced(before)[i as int].take(k as int).push(spaced(before)[i as int][k as int]));
            k = k + 1;
        }
        assert(spaced(before)[i as int].take(row.len() as int) =~= spaced(before)[i as int]);
        let ghost prev_rows = text_rows(spaced_mods@);
        let ghost new_row = Seq::new(out_row@.len(), |q: int| out_row@[q]@);
        spaced_mods.push(out_row);
        assert(text_rows(spaced_mods@) =~= prev_rows.push(new_row));
        assert(spaced(before).take(i as int + 1) =~= spaced(before).take(i as int).push(spaced(before)[i as int]));
        i = i + 1;
    }
    assert(spaced(before).take(mods.len() as int) =~= spaced(before));
    Ok(ObjectPattern { throws, bounce_modifiers: spaced_mods })
}

/// The hand siteswap: its throws and the number of hands it moves (its average).
pub struct HandPattern {
    pub throws: Vec<char>,
    pub hands: usize,
}

pub open spec fn hand_scan(s: Seq<char>, pos: int, throws: Seq<char>, sum: int) -> Result<(Seq<char>, int), Seq<char>>
    decreases s.len() - pos,
{
    if pos < 0 || pos >= s.len() {
        Ok((throws, sum))
    } else if is_ws(s[pos]) || s[pos] == ',' || s[pos] == '.' {
        hand_scan(s, pos + 1, throws, sum)
    } else {
        match hss_value(s[pos]) {
            None => Err(position_error("Invalid HSS hand throw at position "@, pos)),
            Some(v) => hand_scan(s, pos + 1, throws.push(s[pos]), sum + v),
        }
    }
}

/// What reading a hand siteswap gives: its throws and its number of hands, or the error.
pub open spec fn hand_pattern(input: Seq<char>) -> Result<(Seq<char>, usize), Seq<char>> {
    match hand_scan(input, 0, Seq::empty(), 0) {
        Err(e) => Err(e),
        Ok((throws, sum)) => if throws.len() == 0 {
            Err("HSS hand siteswap is empty"@)
        } else if sum % (throws.len() as int) != 0 {
            Err("HSS hand siteswap has an invalid average"@)
        } else {
            Ok((throws, (sum / (throws.len() as int)) as usize))
        },
    }
}

/// Reads a hand siteswap; whitespace, commas and dots are skipped.
pub fn parse_hand_siteswap(input: &str) -> (r: Result<HandPattern, String>)
    requires
        input@.len() <= usize::MAX / 36,
    ensures
        match hand_pattern(input@) {
            Ok((throws, hands)) => r matches Ok(p) && p.throws@ == throws && p.hands == hands,
            Err(m) => r matches Err(e) && e@ == m,
        },
{
    let chars = chars_of(input);
    let ghost s = chars@;
    let mut throws: Vec<char> = Vec::new();
    let mut sum: usize = 0;
    let mut pos: usize = 0;
    while pos < chars.len()
        invariant
            s == chars@,
            s == input@,
            pos <= chars.len(),
            chars.len() <= usize::MAX / 36,
            sum <= 35 * pos,
            hand_scan(s, 0, Seq::empty(), 0) == hand_scan(s, pos as int, throws@, sum as int),
        decreases chars.len() - pos,
    {
        let c = chars[pos];
        if !(is_whitespace(c) || c == ',' || c == '.') {
            let v = match numeric_value(c) {
                Some(v) => v,
                None => {
                    return Err(position_message("Invalid HSS hand throw at position ", pos));
                },
            };
            throws.push(c);
            sum = sum + v;
        }
        pos = pos + 1;
    }
    if throws.len() == 0 {
        return Err("HSS hand siteswap is empty".to_owned());
    }
    if sum % throws.len() != 0 {
        return Err("HSS hand siteswap has an invalid average".to_owned());
    }
    let hands = sum / throws.len();
    Ok(HandPattern { throws, hands })
}

/// The beat a throw from beat `i` lands on, in a pattern of `period` beats.
pub open spec fn landing(i: int, c: char, period: int) -> int {
    (i + match hss_value(c) {
        Some(v) => v as int,
        None => 0,
    }) % period
}

/// How many throws of `row` (made on beat `i`) land on beat `t`.
pub open spec fn row_landings(row: Seq<char>, i: int, period: int, t: int) -> nat
    decreases row.len(),
{
    if row.len() == 0 {
        0
    } else {
        row_landings(row.drop_last(), i, period, t) + if landing(i, row.last(), period) == t {
            1nat
        } else {
            0nat
        }
    }
}

/// How many throws of the first `n` beats land on beat `t`.
pub open spec fn landings(throws: Seq<Seq<char>>, n: int, t: int) -> nat
    decreases n,
{
    if n <= 0 {
        0
    } else {
        landings(throws, n - 1, t) + row_landings(throws[n - 1], n - 1, throws.len() as int, t)
    }
}

/// The number of throws in all beats.
pub open spec fn throw_count(throws: Seq<Seq<char>>, n: int) -> nat
    decreases n,
{
    if n <= 0 {
        0
    } else {
        throw_count(throws, n - 1) + throws[n - 1].len()
    }
}

proof fn lemma_row_landings_bound(row: Seq<char>, i: int, period: int, t: int)
    ensures
        row_landings(row, i, period, t) <= row.len(),
    decreases row.len(),
{
    if row.len() > 0 {
        lemma_row_landings_bound(row.drop_last(), i, period, t);
    }
}

proof fn lemma_landings_bound(throws: Seq<Seq<char>>, n: int, t: int)
    requires
        0 <= n <= throws.len(),
    ensures
        landings(throws, n, t) <= throw_count(throws, n),
    decreases n,
{
    if n > 0 {
        lemma_landings_bound(throws, n - 1, t);
        lemma_row_landings_bound(throws[n - 1], n - 1, throws.len() as int, t);
    }
}

proof fn lemma_throw_count_grows(throws: Seq<Seq<char>>, a: int, b: int)
    requires
        0 <= a <= b <= throws.len(),
    ensures
        throw_count(throws, a) <= throw_count(throws, b),
    decreases b - a,
{
    if a < b {
        lemma_throw_count_grows(throws, a, b - 1);
    }
}

/// Whether every beat is landed on by as many throws as it makes.
pub open spec fn object_permutation_ok(throws: Seq<Seq<char>>) -> bool {
    forall|t: int| 0 <= t < throws.len() ==> #[trigger] landings(throws, throws.len() as int, t) == throws[t].len()
}

pub fn validate_object_permutation(throws: &Vec<Vec<char>>) -> (r: Result<(), String>)
    requires
        throws@.len() + 36 <= usize::MAX,
        throw_count(char_rows(throws@), throws@.len() as int) <= usize::MAX,
    ensures
        match r {
            Ok(()) => object_permutation_ok(char_rows(throws@)),
            Err(e) => !object_permutation_ok(char_rows(throws@)) && e@ == "HSS object siteswap is not a valid permutation"@,
        },
{
    let ghost rows = char_rows(throws@);
    let period = throws.len();
    let mut catches: Vec<usize> = Vec::new();
    let mut z: usize = 0;
    while z < period
        invariant
            z <= period,
            catches@.len() == z,
            forall|t: int| 0 <= t < z ==> catches@[t] == 0,
        decreases period - z,
    {
        catches.push(0);
        z = z + 1;
    }
    let mut index: usize = 0;
    while index < period
        invariant
            index <= period,
            period == throws.len(),
            period + 36 <= usize::MAX,
            rows == char_rows(throws@),
            catches@.len() == period,
            throw_count(rows, period as int) <= usize::MAX,
            forall|t: int| 0 <= t < period ==> #[trigger] catches@[t] == landings(rows, index as int, t),
        decreases period - index,
    {
        let beat = &throws[index];
        assert(rows[index as int] == beat@);
        proof {
            lemma_throw_count_grows(rows, index as int + 1, period as int);
        }
        let mut k: usize = 0;
        while k < beat.len()
            invariant
                index < period,
                k <= beat.len(),
                period == throws.len(),
                period + 36 <= usize::MAX,
                rows == char_rows(throws@),
                beat@ == rows[index as int],
                catches@.len() == period,
                throw_count(rows, index as int + 1) <= usize::MAX,
                forall|t: int| 0 <= t < period ==> #[trigger] catches@[t] == landings(rows, index as int, t)
                    + row_landings(beat@.take(k as int), index as int, period as int, t),
            decreases beat.len() - k,
        {
            let value = match numeric_value(beat[k]) {
                Some(v) => v,
                None => 0,
            };
            let target = (index + value) % period;
            let ghost nt = beat@.take(k as int + 1);
            assert(nt.drop_last() =~= beat@.take(k as int));
            assert(nt.last() == beat@[k as int]);
            assert(target as int == landing(index as int, beat@[k as int], period as int));
            proof {
                lemma_landings_bound(rows, index as int, target as int);
                lemma_row_landings_bound(beat@.take(k as int), index as int, period as int, target as int);
                assert(throw_count(rows, index as int + 1) == throw_count(rows, index as int) + beat@.len());
            }
            let c = catches[target] + 1;
            catches.set(target, c);
            k = k + 1;
        }
        assert(beat@.take(beat.len() as int) =~= beat@);
        index = index + 1;
    }
    let mut t: usize = 0;
    while t < period
        invariant
            t <= period,
            period == throws.len(),
            rows == char_rows(throws@),
            catches@.len() == period,
            forall|q: int| 0 <= q < period ==> #[trigger] catches@[q] == landings(rows, period as int, q),
            forall|q: int| 0 <= q < t ==> #[trigger] landings(rows, rows.len() as int, q) == rows[q].len(),
        decreases period - t,
    {
        assert(rows[t as int] == throws@[t as int]@);
        if catches[t] != throws[t].len() {
            return Err("HSS object siteswap is not a valid permutation".to_owned());
        }
        t = t + 1;
    }
    Ok(())
}

/// Gives hand `value` (a number from 1 to `hands`, or nothing) to `juggler`'s `hand`
/// (0 left, 1 right); a hand can be given only once.
pub open spec fn assign_side(map: Seq<(usize, usize)>, hands: usize, juggler: usize, hand: usize, value: Seq<char>) -> Result<
    Seq<(usize, usize)>,
    Seq<char>,
> {
    if value.len() == 0 {
        Ok(map)
    } else {
        match parsed_usize(value) {
            None => Err("Invalid handspec hand number: "@ + value),
            Some(n) => if n == 0 || n > hands {
                Err("HSS hand number out of range: "@ + decimal(n as nat))
            } else if map[n - 1].0 != 0 {
                Err("HSS hand "@ + decimal(n as nat) + " is assigned more than once"@)
            } else {
                Ok(map.update(n - 1, (juggler, hand)))
            },
        }
    }
}

pub fn assign_handspec_side(handmap: &mut Vec<(usize, usize)>, hands: usize, juggler: usize, hand: usize, value: &Vec<char>) -> (r: Result<(), String>)
    requires
        old(handmap)@.len() == hands,
    ensures
        match assign_side(old(handmap)@, hands, juggler, hand, value@) {
            Ok(m) => r is Ok && final(handmap)@ == m,
            Err(m) => r matches Err(e) && e@ == m,
        },
        final(handmap)@.len() == hands,
{
    if value.len() == 0 {
        return Ok(());
    }
    let n = match parse_usize(value) {
        Some(n) => n,
        None => {
            let mut m: Vec<char> = Vec::new();
            push_str(&mut m, "Invalid handspec hand number: ");
            push_all(&mut m, value);
            return Err(string_from_chars(&m));
        },
    };
    if n == 0 || n > hands {
        let mut m: Vec<char> = Vec::new();
        push_str(&mut m, "HSS hand number out of range: ");
        push_decimal(&mut m, n as u64);
        return Err(string_from_chars(&m));
    }
    if handmap[n - 1].0 != 0 {
        let mut m: Vec<char> = Vec::new();
        push_str(&mut m, "HSS hand ");
        push_decimal(&mut m, n as u64);
        push_str(&mut m, " is assigned more than once");
        return Err(string_from_chars(&m));
    }
    handmap.set(n - 1, (juggler, hand));
    Ok(())
}

/// Reads the handspec from `pos` on: groups `(l,r)` that give each juggler in turn the
/// hands numbered `l` and `r`; whitespace between groups is skipped.
pub open spec fn handspec_scan(s: Seq<char>, pos: int, juggler: usize, map: Seq<(usize, usize)>, hands: usize) -> Result<
    (usize, Seq<(usize, usize)>),
    Seq<char>,
>
    decreases s.len() - pos,
{
    if pos < 0 || pos >= s.len() {
        Ok((juggler, map))
    } else if is_ws(s[pos]) {
        handspec_scan(s, pos + 1, juggler, map, hands)
    } else if s[pos] != '(' {
        Err(position_error("Invalid handspec syntax at position "@, pos))
    } else {
        let close = index_from(s, ')', pos + 1);
        if close < 0 {
            Err("Invalid handspec syntax: missing ')'"@)
        } else {
            let group = s.subrange(pos + 1, close);
            let comma = index_of_char(group, ',');
            if comma < 0 {
                Err("Invalid handspec syntax: missing ','"@)
            } else {
                let left = trim(group.take(comma));
                let right = trim(group.skip(comma + 1));
                let j = (juggler + 1) as usize;
                match assign_side(map, hands, j, 0, left) {
                    Err(e) => Err(e),
                    Ok(m1) => match assign_side(m1, hands, j, 1, right) {
                        Err(e) => Err(e),
                        Ok(m2) => if left.len() == 0 && right.len() == 0 {
                            Err("Each handspec juggler must contain at least one hand"@)
                        } else {
                            proof {
                                lemma_index_from(s, ')', pos + 1);
                            }
                            handspec_scan(s, close + 1, j, m2, hands)
                        },
                    },
                }
            }
        }
    }
}

/// The first hand from `i` on that no juggler has, or -1.
pub open spec fn first_unassigned(map: Seq<(usize, usize)>, i: int) -> int
    decreases map.len() - i,
{
    if i < 0 || i >= map.len() {
        -1
    } else if map[i].0 == 0 {
        i
    } else {
        first_unassigned(map, i + 1)
    }
}

/// What a handspec gives: for each hand, its juggler and side, or the error.
pub open spec fn handspec_map(s: Seq<char>, hands: usize) -> Result<Seq<(usize, usize)>, Seq<char>> {
    match handspec_scan(s, 0, 0, Seq::new(hands as nat, |i: int| (0usize, 0usize)), hands) {
        Err(e) => Err(e),
        Ok((juggler, map)) => if juggler == 0 {
            Err("Invalid handspec syntax"@)
        } else {
            let u = first_unassigned(map, 0);
            if u >= 0 {
                Err("HSS hand "@ + decimal((u + 1) as nat) + " is not assigned to a juggler"@)
            } else {
                Ok(map)
            }
        },
    }
}

pub fn parse_handspec(handspec: &str, hands: usize) -> (r: Result<Vec<(usize, usize)>, String>)
    ensures
        match handspec_map(handspec@, hands) {
            Ok(m) => r matches Ok(v) && v@ == m,
            Err(m) => r matches Err(e) && e@ == m,
        },
{
    let chars = chars_of(handspec);
    let ghost s = chars@;
    let mut handmap: Vec<(usize, usize)> = Vec::new();
    let mut z: usize = 0;
    while z < hands
        invariant
            z <= hands,
            handmap@ =~= Seq::new(z as nat, |i: int| (0usize, 0usize)),
        decreases hands - z,
    {
        handmap.push((0, 0));
        z = z + 1;
    }
    let ghost map0 = handmap@;
    let mut pos: usize = 0;
    let mut juggler: usize = 0;
    while pos < chars.len()
        invariant
            s == chars@,
            s == handspec@,
            pos <= chars.len(),
            juggler <= pos,
            handmap@.len() == hands,
            map0 == Seq::new(hands as nat, |i: int| (0usize, 0usize)),
            handspec_scan(s, 0, 0, map0, hands) == handspec_scan(s, pos as int, juggler, handmap@, hands),
        decreases chars.len() - pos,
    {
        if is_whitespace(chars[pos]) {
            pos = pos + 1;
        } else {
            if chars[pos] != '(' {
                return Err(position_message("Invalid handspec syntax at position ", pos));
            }
            let mut close: usize = pos + 1;
            while close < chars.len() && chars[close] != ')'
                invariant
                    pos < close <= chars.len(),
                    s == chars@,
                    index_from(s, ')', pos + 1) == index_from(s, ')', close as int),
                decreases chars.len() - close,
            {
                close = close + 1;
            }
            if close >= chars.len() {
                return Err("Invalid handspec syntax: missing ')'".to_owned());
            }
            let group = slice_of(&chars, pos + 1, close);
            let comma = match find_char(&group, ',') {
                Some(c) => c,
                None => {
                    return Err("Invalid handspec syntax: missing ','".to_owned());
                },
            };
            let left_raw = slice_of(&group, 0, comma);
            let right_raw = slice_of(&group, comma + 1, group.len());
            assert(left_raw@ =~= group@.take(comma as int));
            assert(right_raw@ =~= group@.skip(comma + 1));
            let left = trim_chars(&left_raw);
            let right = trim_chars(&right_raw);
            juggler = juggler + 1;
            match assign_handspec_side(&mut handmap, hands, juggler, 0, &left) {
                Ok(()) => {},
                Err(e) => {
                    return Err(e);
                },
            }
            match assign_handspec_side(&mut handmap, hands, juggler, 1, &right) {
                Ok(()) => {},
                Err(e) => {
                    return Err(e);
                },
            }
            if left.len() == 0 && right.len() == 0 {
                return Err("Each handspec juggler must contain at least one hand".to_owned());
            }
            pos = close + 1;
        }
    }
    if juggler == 0 {
        return Err("Invalid handspec syntax".to_owned());
    }
    let mut i: usize = 0;
    while i < handmap.len()
        invariant
            i <= handmap.len(),
            juggler != 0,
            s == handspec@,
            map0 == Seq::new(hands as nat, |i: int| (0usize, 0usize)),
            handspec_scan(s, 0, 0, map0, hands) == Ok::<(usize, Seq<(usize, usize)>), Seq<char>>((juggler, handmap@)),
            first_unassigned(handmap@, 0) == first_unassigned(handmap@, i as int),
        decreases handmap.len() - i,
    {
        if handmap[i].0 == 0 {
            let mut m: Vec<char> = Vec::new();
            push_str(&mut m, "HSS hand ");
            push_decimal(&mut m, (i + 1) as u64);
            push_str(&mut m, " is not assigned to a juggler");
            return Err(string_from_chars(&m));
        }
        i = i + 1;
    }
    Ok(handmap)
}

/// The usual handspec: the first half of the hands (rounded up) are the right hands of
/// jugglers 1, 2, ..., the rest their left hands.
pub open spec fn default_hands(hands: usize) -> Seq<(usize, usize)> {
    let jugglers: int = if hands % 2 == 0 { (hands / 2) as int } else { (hands + 1) / 2 };
    Seq::new(
        hands as nat,
        |i: int|
            if i < jugglers {
                ((i + 1) as usize, 1usize)
            } else {
                ((i + 1 - jugglers) as usize, 0usize)
            },
    )
}

pub fn default_handspec(hands: usize) -> (r: Vec<(usize, usize)>)
    requires
        hands < usize::MAX,
    ensures
        r@ == default_hands(hands),
{
    let jugglers = if hands % 2 == 0 {
        hands / 2
    } else {
        (hands + 1) / 2
    };
    let mut handmap: Vec<(usize, usize)> = Vec::new();
    let mut index: usize = 0;
    while index < hands
        invariant
            index <= hands,
            hands < usize::MAX,
            jugglers as int == (if hands % 2 == 0 { (hands / 2) as int } else { (hands + 1) / 2 }),
            handmap@ =~= default_hands(hands).take(index as int),
        decreases hands - index,
    {
        let entry = if index < jugglers {
            (index + 1, 1)
        } else {
            (index + 1 - jugglers, 0)
        };
        handmap.push(entry);
        assert(default_hands(hands).take(index as int + 1) =~= default_hands(hands).take(index as int).push(entry));
        index = index + 1;
    }
    assert(default_hands(hands).take(hands as int) =~= default_hands(hands));
    handmap
}

/// The value of a hand siteswap character, 0 for any other character.
pub open spec fn value_or_zero(c: char) -> int {
    match hss_value(c) {
        Some(v) => v as int,
        None => 0,
    }
}

/// The modifier of throw `k` of beat `i` in the converted pattern: `x` where it crosses
/// between the hands, `p` and the juggler where it is a pass, `H` where a hold is asked
/// for and the throw has the hand's own value, then its bounce modifier.
pub open spec fn throw_modifier(
    object: Seq<Seq<char>>,
    bounce: Seq<Seq<Seq<char>>>,
    hands: Seq<char>,
    info: Seq<(usize, usize)>,
    hold: bool,
    i: int,
    k: int,
) -> Seq<char> {
    let period = object.len() as int;
    let value = value_or_zero(object[i][k]);
    let t = (i + value) % period;
    let (sj, sh) = info[i];
    let (tj, th) = info[t];
    let x = if (value % 2 == 0 && sh != th) || (value % 2 != 0 && sh == th) {
        seq!['x']
    } else {
        Seq::empty()
    };
    let p = if sj != tj {
        seq!['p'] + decimal(tj as nat)
    } else if hold && value == value_or_zero(hands[i]) {
        seq!['H']
    } else {
        Seq::empty()
    };
    x + p + bounce[i][k]
}

pub open spec fn all_modifiers(
    object: Seq<Seq<char>>,
    bounce: Seq<Seq<Seq<char>>>,
    hands: Seq<char>,
    info: Seq<(usize, usize)>,
    hold: bool,
) -> Seq<Seq<Seq<char>>> {
    Seq::new(
        object.len(),
        |i: int| Seq::new(object[i].len(), |k: int| throw_modifier(object, bounce, hands, info, hold, i, k)),
    )
}

fn one_modifier(
    object: &Vec<Vec<char>>,
    bounce_modifiers: &Vec<Vec<String>>,
    hands: &Vec<char>,
    juggler_info: &Vec<(usize, usize)>,
    hold: bool,
    index: usize,
    slot: usize,
) -> (r: String)
    requires
        index < object.len(),
        slot < object@[index as int].len(),
        bounce_modifiers.len() == object.len(),
        slot < bounce_modifiers@[index as int].len(),
        hands.len() >= object.len(),
        juggler_info.len() >= object.len(),
        object.len() + 36 <= usize::MAX,
    ensures
        r@ == throw_modifier(char_rows(object@), text_rows(bounce_modifiers@), hands@, juggler_info@, hold, index as int, slot as int),
{
    let period = object.len();
    let value = match numeric_value(object[index][slot]) {
        Some(v) => v,
        None => 0,
    };
    assert(value as int == value_or_zero(char_rows(object@)[index as int][slot as int]));
    let target_index = (index + value) % period;
    let (source_juggler, source_hand) = juggler_info[index];
    let (target_juggler, target_hand) = juggler_info[target_index];
    let mut m: Vec<char> = Vec::new();
    if (value % 2 == 0 && source_hand != target_hand) || (value % 2 != 0 && source_hand == target_hand) {
        m.push('x');
    }
    let ghost x = m@;
    if source_juggler != target_juggler {
        m.push('p');
        push_decimal(&mut m, target_juggler as u64);
    } else {
        let own = match numeric_value(hands[index]) {
            Some(v) => v,
            None => 0,
        };
        if hold && value == own {
            m.push('H');
        }
    }
    let b = chars_of(bounce_modifiers[index][slot].as_str());
    assert(text_rows(bounce_modifiers@)[index as int][slot as int] == b@);
    push_all(&mut m, &b);
    assert(m@ =~= throw_modifier(char_rows(object@), text_rows(bounce_modifiers@), hands@, juggler_info@, hold, index as int, slot as int));
    string_from_chars(&m)
}

/// The modifier of every throw of the converted pattern.
pub fn hss_throw_modifiers(
    object: &Vec<Vec<char>>,
    bounce_modifiers: &Vec<Vec<String>>,
    hands: &Vec<char>,
    juggler_info: &Vec<(usize, usize)>,
    hold: bool,
) -> (r: Vec<Vec<String>>)
    requires
        bounce_modifiers.len() == object.len(),
        forall|i: int| 0 <= i < object.len() ==> #[trigger] object@[i].len() <= bounce_modifiers@[i].len(),
        hands.len() >= object.len(),
        juggler_info.len() >= object.len(),
        object.len() + 36 <= usize::MAX,
    ensures
        text_rows(r@) == all_modifiers(char_rows(object@), text_rows(bounce_modifiers@), hands@, juggler_info@, hold),
{
    let ghost target = all_modifiers(char_rows(object@), text_rows(bounce_modifiers@), hands@, juggler_info@, hold);
    let mut out: Vec<Vec<String>> = Vec::new();
    let mut index: usize = 0;
    while index < object.len()
        invariant
            index <= object.len(),
            bounce_modifiers.len() == object.len(),
            forall|i: int| 0 <= i < object.len() ==> #[trigger] object@[i].len() <= bounce_modifiers@[i].len(),
            hands.len() >= object.len(),
            juggler_info.len() >= object.len(),
            object.len() + 36 <= usize::MAX,
            target == all_modifiers(char_rows(object@), text_rows(bounce_modifiers@), hands@, juggler_info@, hold),
            text_rows(out@) =~= target.take(index as int),
        decreases object.len() - index,
    {
        let mut row: Vec<String> = Vec::new();
        let mut slot: usize = 0;
        assert(object@[index as int].len() <= bounce_modifiers@[index as int].len());
        while slot < object[index].len()
            invariant
                index < object.len(),
                slot <= object@[index as int].len(),
                bounce_modifiers.len() == object.len(),
                object@[index as int].len() <= bounce_modifiers@[index as int].len(),
                hands.len() >= object.len(),
                juggler_info.len() >= object.len(),
                object.len() + 36 <= usize::MAX,
                target == all_modifiers(char_rows(object@), text_rows(bounce_modifiers@), hands@, juggler_info@, hold),
                Seq::new(row@.len(), |q: int| row@[q]@) =~= target[index as int].take(slot as int),
            decreases object@[index as int].len() - slot,
        {
            let m = one_modifier(object, bounce_modifiers, hands, juggler_info, hold, index, slot);
            let ghost prev = Seq::new(row@.len(), |q: int| row@[q]@);
            row.push(m);
            assert(Seq::new(row@.len(), |q: int| row@[q]@) =~= prev.push(target[index as int][slot as int]));
            assert(target[index as int].take(slot as int + 1) =~= target[index as int].take(slot as int).push(
                target[index as int][slot as int],
            ));
            slot = slot + 1;
        }
        assert(target[index as int].take(object@[index as int].len() as int) =~= target[index as int]);
        let ghost prev_rows = text_rows(out@);
        let ghost new_row = Seq::new(row@.len(), |q: int| row@[q]@);
        out.push(row);
        assert(text_rows(out@) =~= prev_rows.push(new_row));
        assert(target.take(index as int + 1) =~= target.take(index as int).push(target[index as int]));
        index = index + 1;
    }
    assert(target.take(object.len() as int) =~= target);
    out
}

/// The first `n` throws of a slot, each followed by its modifier.
pub open spec fn slot_pairs(throws: Seq<char>, mods: Seq<Seq<char>>, n: int) -> Seq<char>
    decreases n,
{
    if n <= 0 {
        Seq::empty()
    } else {
        slot_pairs(throws, mods, n - 1) + seq![throws[n - 1]] + mods[n - 1]
    }
}

/// A slot of the converted pattern: its throws with their modifiers, in brackets when there
/// are several.
pub open spec fn hss_slot(throws: Seq<char>, mods: Seq<Seq<char>>) -> Seq<char> {
    let n = if throws.len() <= mods.len() { throws.len() as int } else { mods.len() as int };
    let body = slot_pairs(throws, mods, n);
    if throws.len() > 1 {
        seq!['['] + body + seq![']']
    } else {
        body
    }
}

pub fn append_hss_slot(output: &mut Vec<char>, throws: &Vec<char>, modifiers: &Vec<String>)
    ensures
        final(output)@ == old(output)@ + hss_slot(throws@, Seq::new(modifiers@.len(), |k: int| modifiers@[k]@)),
{
    let ghost mods = Seq::new(modifiers@.len(), |k: int| modifiers@[k]@);
    let ghost start = output@;
    if throws.len() > 1 {
        output.push('[');
    }
    let ghost opened = output@;
    let n = if throws.len() <= modifiers.len() {
        throws.len()
    } else {
        modifiers.len()
    };
    let mut k: usize = 0;
    while k < n
        invariant
            k <= n,
            n <= throws.len(),
            n <= modifiers.len(),
            mods == Seq::new(modifiers@.len(), |k: int| modifiers@[k]@),
            output@ == opened + slot_pairs(throws@, mods, k as int),
        decreases n - k,
    {
        output.push(throws[k]);
        let m = chars_of(modifiers[k].as_str());
        push_all(output, &m);
        assert(output@ =~= opened + slot_pairs(throws@, mods, k as int + 1));
        k = k + 1;
    }
    if throws.len() > 1 {
        output.push(']');
    }
    assert(output@ =~= start + hss_slot(throws@, mods));
}

/// One juggler's pair of hands on beat `index`: the slot is that of the beat's hand when
/// the beat belongs to juggler `j`, a rest otherwise.
pub open spec fn juggler_slot(object: Seq<Seq<char>>, mods: Seq<Seq<Seq<char>>>, info: Seq<(usize, usize)>, index: int, j: int) -> Seq<char> {
    let mine = info[index].0 == j;
    if info[index].1 == 0 {
        if mine {
            seq!['('] + hss_slot(object[index], mods[index]) + ",0)!"@
        } else {
            "(0,0)!"@
        }
    } else {
        if mine {
            "(0,"@ + hss_slot(object[index], mods[index]) + ")!"@
        } else {
            "(0,0)!"@
        }
    }
}

/// The pairs of jugglers 1 to `n` on beat `index`, separated by `|`.
pub open spec fn juggler_slots(object: Seq<Seq<char>>, mods: Seq<Seq<Seq<char>>>, info: Seq<(usize, usize)>, index: int, n: int) -> Seq<char>
    decreases n,
{
    if n <= 0 {
        Seq::empty()
    } else {
        juggler_slots(object, mods, info, index, n - 1) + (if n != 1 {
            seq!['|']
        } else {
            Seq::empty()
        }) + juggler_slot(object, mods, info, index, n)
    }
}

/// The converted pattern: one passing group per beat.
pub open spec fn converted_text(object: Seq<Seq<char>>, mods: Seq<Seq<Seq<char>>>, info: Seq<(usize, usize)>, jugglers: int, n: int) -> Seq<char>
    decreases n,
{
    if n <= 0 {
        Seq::empty()
    } else {
        converted_text(object, mods, info, jugglers, n - 1) + seq!['<'] + juggler_slots(object, mods, info, n - 1, jugglers)
            + seq!['>']
    }
}

pub fn converted_pattern(
    object: &Vec<Vec<char>>,
    modifiers: &Vec<Vec<String>>,
    juggler_info: &Vec<(usize, usize)>,
    jugglers: usize,
) -> (r: String)
    requires
        juggler_info.len() >= object.len(),
        modifiers.len() >= object.len(),
        jugglers < usize::MAX,
    ensures
        r@ == converted_text(char_rows(object@), text_rows(modifiers@), juggler_info@, jugglers as int, object.len() as int),
{
    let ghost ob = char_rows(object@);
    let ghost md = text_rows(modifiers@);
    let mut pattern: Vec<char> = Vec::new();
    let mut index: usize = 0;
    while index < object.len()
        invariant
            index <= object.len(),
            juggler_info.len() >= object.len(),
            modifiers.len() >= object.len(),
            jugglers < usize::MAX,
            ob == char_rows(object@),
            md == text_rows(modifiers@),
            pattern@ == converted_text(ob, md, juggler_info@, jugglers as int, index as int),
        decreases object.len() - index,
    {
        let ghost before = pattern@;
        pattern.push('<');
        let ghost opened = pattern@;
        let mut juggler: usize = 1;
        while juggler <= jugglers
            invariant
                1 <= juggler <= jugglers + 1,
                index < object.len(),
                juggler_info.len() >= object.len(),
                modifiers.len() >= object.len(),
                jugglers < usize::MAX,
                ob == char_rows(object@),
                md == text_rows(modifiers@),
                pattern@ == opened + juggler_slots(ob, md, juggler_info@, index as int, juggler - 1),
            decreases jugglers + 1 - juggler,
        {
            let ghost at = pattern@;
            if juggler != 1 {
                pattern.push('|');
            }
            let (owner, side) = juggler_info[index];
            assert(ob[index as int] == object@[index as int]@);
            assert(Seq::new(modifiers@[index as int]@.len(), |k: int| modifiers@[index as int]@[k]@) == md[index as int]);
            if side == 0 {
                pattern.push('(');
                if owner == juggler {
                    append_hss_slot(&mut pattern, &object[index], &modifiers[index]);
                    push_str(&mut pattern, ",0)!");
                } else {
                    push_str(&mut pattern, "0,0)!");
                    proof {
                        reveal_strlit("0,0)!");
                        reveal_strlit("(0,0)!");
                    }
                }
            } else {
                push_str(&mut pattern, "(0,");
                if owner == juggler {
                    append_hss_slot(&mut pattern, &object[index], &modifiers[index]);
                    push_str(&mut pattern, ")!");
                } else {
                    push_str(&mut pattern, "0)!");
                    proof {
                        reveal_strlit("(0,");
                        reveal_strlit("0)!");
                        reveal_strlit("(0,0)!");
                    }
                }
            }
            assert(pattern@ =~= opened + juggler_slots(ob, md, juggler_info@, index as int, juggler as int));
            juggler = juggler + 1;
        }
        pattern.push('>');
        assert(pattern@ =~= converted_text(ob, md, juggler_info@, jugglers as int, index as int + 1));
        index = index + 1;
    }
    string_from_chars(&pattern)
}

/// The beat a hand's throw from beat `i` goes to.
pub open spec fn hand_target(h: Seq<char>, i: int) -> int {
    (i + value_or_zero(h[i])) % (h.len() as int)
}

/// How many of the first `n` beats throw to beat `t`.
pub open spec fn hand_catch_count(h: Seq<char>, n: int, t: int) -> nat
    decreases n,
{
    if n <= 0 {
        0
    } else {
        hand_catch_count(h, n - 1, t) + if hand_target(h, n - 1) == t {
            1nat
        } else {
            0nat
        }
    }
}

/// Every beat of the hand siteswap is thrown to exactly once.
pub open spec fn hand_permutation_ok(h: Seq<char>) -> bool {
    forall|t: int| 0 <= t < h.len() ==> #[trigger] hand_catch_count(h, h.len() as int, t) == 1
}

/// Follows a hand from `cursor` until it is back on beat `index`, at most `fuel` more
/// throws, adding up their values and marking the beats passed.
pub open spec fn orbit_walk(h: Seq<char>, index: int, cursor: int, sum: int, touched: Seq<bool>, fuel: nat) -> Option<(int, Seq<bool>)>
    decreases fuel,
{
    if cursor == index {
        Some((sum, touched))
    } else if fuel == 0 || cursor < 0 || cursor >= h.len() {
        None
    } else {
        orbit_walk(h, index, hand_target(h, cursor), sum + value_or_zero(h[cursor]), touched.update(cursor, true), (fuel - 1) as nat)
    }
}

/// The orbits of the hands from beat `index` on, each from its first beat: their periods
/// (sums of values) folded with `lcm` into `acc`, skipping sums of 0.
pub open spec fn orbit_fold(h: Seq<char>, index: int, acc: int, touched: Seq<bool>) -> Option<int>
    decreases h.len() - index,
{
    if index < 0 || index >= h.len() {
        Some(acc)
    } else if touched[index] {
        orbit_fold(h, index + 1, acc, touched)
    } else {
        match orbit_walk(h, index, hand_target(h, index), value_or_zero(h[index]), touched.update(index, true), h.len() as nat) {
            None => None,
            Some((sum, t2)) => orbit_fold(
                h,
                index + 1,
                if sum != 0 {
                    lcm_spec(acc as nat, sum as nat) as int
                } else {
                    acc
                },
                t2,
            ),
        }
    }
}

/// Whether every `lcm` of the fold is taken of numbers whose product fits in `usize`.
pub open spec fn orbits_fit(h: Seq<char>, index: int, acc: int, touched: Seq<bool>) -> bool
    decreases h.len() - index,
{
    if index < 0 || index >= h.len() {
        true
    } else if touched[index] {
        orbits_fit(h, index + 1, acc, touched)
    } else {
        match orbit_walk(h, index, hand_target(h, index), value_or_zero(h[index]), touched.update(index, true), h.len() as nat) {
            None => true,
            Some((sum, t2)) => (sum == 0 || acc * sum <= usize::MAX) && orbits_fit(
                h,
                index + 1,
                if sum != 0 {
                    lcm_spec(acc as nat, sum as nat) as int
                } else {
                    acc
                },
                t2,
            ),
        }
    }
}

/// The hand orbit period of a hand siteswap: the `lcm` of the periods of its orbits, or the
/// error when it is not a permutation of the beats.
pub open spec fn hand_orbit(h: Seq<char>) -> Result<int, Seq<char>> {
    if !hand_permutation_ok(h) {
        Err("HSS hand siteswap is not a valid permutation"@)
    } else {
        match orbit_fold(h, 0, 1, Seq::new(h.len(), |i: int| false)) {
            None => Err("HSS hand siteswap is not a valid permutation"@),
            Some(p) => Ok(p),
        }
    }
}

/// Follows the orbit through beat `index`; the sum of its values, or `None` when it does
/// not come back within as many throws as there are beats.
fn walk_orbit(throws: &Vec<char>, targets: &Vec<usize>, index: usize, touched: &mut Vec<bool>) -> (r: Option<usize>)
    requires
        index < throws.len(),
        throws.len() <= usize::MAX / 36,
        targets@.len() == throws.len(),
        forall|i: int| 0 <= i < throws.len() ==> #[trigger] targets@[i] as int == hand_target(throws@, i),
        old(touched)@.len() == throws.len(),
    ensures
        final(touched)@.len() == throws.len(),
        ({
            let w = orbit_walk(
                throws@,
                index as int,
                hand_target(throws@, index as int),
                value_or_zero(throws@[index as int]),
                old(touched)@.update(index as int, true),
                throws.len() as nat,
            );
            match r {
                None => w is None,
                Some(x) => w == Some::<(int, Seq<bool>)>((x as int, final(touched)@)),
            }
        }),
{
    let ghost h = throws@;
    let first = match numeric_value(throws[index]) {
        Some(v) => v,
        None => 0,
    };
    let mut orbit: usize = first;
    touched.set(index, true);
    let mut cursor = targets[index];
    let mut fuel: usize = throws.len();
    let ghost start = orbit_walk(h, index as int, cursor as int, orbit as int, touched@, fuel as nat);
    while cursor != index
        invariant
            h == throws@,
            index < throws.len(),
            throws.len() <= usize::MAX / 36,
            targets@.len() == throws.len(),
            forall|i: int| 0 <= i < throws.len() ==> #[trigger] targets@[i] as int == hand_target(h, i),
            touched@.len() == throws.len(),
            cursor < throws.len(),
            fuel <= throws.len(),
            orbit <= 35 * (throws.len() - fuel + 1),
            start == orbit_walk(h, index as int, cursor as int, orbit as int, touched@, fuel as nat),
            start == orbit_walk(
                h,
                index as int,
                hand_target(h, index as int),
                value_or_zero(h[index as int]),
                old(touched)@.update(index as int, true),
                h.len() as nat,
            ),
        decreases fuel,
    {
        if fuel == 0 {
            return None;
        }
        let v = match numeric_value(throws[cursor]) {
            Some(v) => v,
            None => 0,
        };
        orbit = orbit + v;
        touched.set(cursor, true);
        cursor = targets[cursor];
        fuel = fuel - 1;
    }
    Some(orbit)
}

/// Checks that the hand siteswap throws to every beat exactly once, and gives its orbit
/// period.
pub fn validate_hand_permutation(throws: &Vec<char>) -> (r: Result<usize, String>)
    requires
        throws.len() <= usize::MAX / 36,
        orbits_fit(throws@, 0, 1, Seq::new(throws@.len(), |i: int| false)),
    ensures
        match hand_orbit(throws@) {
            Ok(p) => r matches Ok(x) && x == p,
            Err(m) => r matches Err(e) && e@ == m,
        },
{
    let ghost h = throws@;
    let period = throws.len();
    let mut targets: Vec<usize> = Vec::new();
    let mut catches: Vec<usize> = Vec::new();
    let mut z: usize = 0;
    while z < period
        invariant
            z <= period,
            catches@.len() == z,
            forall|t: int| 0 <= t < z ==> catches@[t] == 0,
        decreases period - z,
    {
        catches.push(0);
        z = z + 1;
    }
    let mut index: usize = 0;
    while index < period
        invariant
            index <= period,
            period == throws.len(),
            h == throws@,
            period <= usize::MAX / 36,
            targets@.len() == index,
            forall|i: int| 0 <= i < index ==> #[trigger] targets@[i] as int == hand_target(h, i),
            catches@.len() == period,
            forall|t: int| 0 <= t < period ==> #[trigger] catches@[t] == hand_catch_count(h, index as int, t),
            forall|t: int| 0 <= t < period ==> #[trigger] hand_catch_count(h, index as int, t) <= index,
        decreases period - index,
    {
        let v = match numeric_value(throws[index]) {
            Some(v) => v,
            None => 0,
        };
        let target = (index + v) % period;
        assert(target as int == hand_target(h, index as int));
        targets.push(target);
        assert forall|t: int| 0 <= t < period implies #[trigger] hand_catch_count(h, index as int + 1, t) <= index + 1 by {
            assert(hand_catch_count(h, index as int, t) <= index);
        }
        let c = catches[target] + 1;
        catches.set(target, c);
        index = index + 1;
    }
    let mut t: usize = 0;
    while t < period
        invariant
            t <= period,
            period == throws.len(),
            h == throws@,
            catches@.len() == period,
            forall|q: int| 0 <= q < period ==> #[trigger] catches@[q] == hand_catch_count(h, period as int, q),
            forall|q: int| 0 <= q < t ==> #[trigger] hand_catch_count(h, h.len() as int, q) == 1,
        decreases period - t,
    {
        if catches[t] != 1 {
            return Err("HSS hand siteswap is not a valid permutation".to_owned());
        }
        t = t + 1;
    }
    let mut touched: Vec<bool> = Vec::new();
    let mut z2: usize = 0;
    while z2 < period
        invariant
            z2 <= period,
            touched@ =~= Seq::new(z2 as nat, |i: int| false),
        decreases period - z2,
    {
        touched.push(false);
        z2 = z2 + 1;
    }
    let ghost t0 = touched@;
    let mut orbit_period: usize = 1;
    let mut i: usize = 0;
    while i < period
        invariant
            i <= period,
            period == throws.len(),
            h == throws@,
            period <= usize::MAX / 36,
            targets@.len() == period,
            forall|k: int| 0 <= k < period ==> #[trigger] targets@[k] as int == hand_target(h, k),
            touched@.len() == period,
            hand_permutation_ok(h),
            t0 == Seq::new(h.len(), |k: int| false),
            orbit_fold(h, 0, 1, t0) == orbit_fold(h, i as int, orbit_period as int, touched@),
            orbits_fit(h, i as int, orbit_period as int, touched@),
        decreases period - i,
    {
        if !touched[i] {
            match walk_orbit(throws, &targets, i, &mut touched) {
                None => {
                    return Err("HSS hand siteswap is not a valid permutation".to_owned());
                },
                Some(orbit) => {
                    if orbit != 0 {
                        orbit_period = lcm(orbit_period, orbit);
                    }
                },
            }
        }
        i = i + 1;
    }
    Ok(orbit_period)
}

/// The throws of a period repeated to fill `q` beats (kept as they are when longer).
pub open spec fn repeated_to<T>(v: Seq<T>, q: int) -> Seq<T> {
    if v.len() > 0 && q > v.len() {
        Seq::new(q as nat, |i: int| v[i % (v.len() as int)])
    } else {
        v
    }
}

/// Follows the hand that throws on beat `index` round its orbit of `q` beats from `next`,
/// at most `fuel` more throws, giving each beat passed hand number `hand`.
pub open spec fn hand_walk(
    hs: Seq<char>,
    q: int,
    index: int,
    next: int,
    assigned: Seq<int>,
    done: Seq<bool>,
    hand: int,
    fuel: nat,
) -> Option<(Seq<int>, Seq<bool>)>
    decreases fuel,
{
    if next == index {
        Some((assigned, done))
    } else if fuel == 0 || next < 0 || next >= q || q <= 0 {
        None
    } else {
        hand_walk(hs, q, index, (next + value_or_zero(hs[next])) % q, assigned.update(next, hand), done.update(next, true), hand, (fuel - 1) as nat)
    }
}

/// Whether a beat of the object siteswap throws something other than `0`.
pub open spec fn throws_something(beat: Seq<char>) -> bool {
    exists|k: int| 0 <= k < beat.len() && beat[k] != '0'
}

/// Numbers the hands beat by beat from `index` on (a new number for each orbit not yet
/// numbered) and gives each beat the juggler and side of its hand.
pub open spec fn assign_fold(
    obj: Seq<Seq<char>>,
    hs: Seq<char>,
    q: int,
    map: Seq<(usize, usize)>,
    index: int,
    assigned: Seq<int>,
    done: Seq<bool>,
    current: int,
    info: Seq<(usize, usize)>,
) -> Result<Seq<(usize, usize)>, Seq<char>>
    decreases q - index,
{
    if index < 0 || index >= q {
        Ok(info)
    } else if hs[index] == '0' {
        if throws_something(obj[index]) {
            Err("HSS has no hand available to throw at beat "@ + decimal((index + 1) as nat))
        } else {
            assign_fold(obj, hs, q, map, index + 1, assigned, done.update(index, true), current, info)
        }
    } else {
        let walked: Option<(Seq<int>, Seq<bool>, int)> = if !done[index] {
            let c = current + 1;
            match hand_walk(hs, q, index, (index + value_or_zero(hs[index])) % q, assigned.update(index, c), done.update(index, true), c, q as nat) {
                None => None,
                Some((a, d)) => Some((a, d, c)),
            }
        } else {
            Some((assigned, done, current))
        };
        match walked {
            None => Err("HSS hand siteswap is not a valid permutation"@),
            Some((a, d, c)) => {
                let hand_number = if a[index] >= 1 { a[index] - 1 } else { 0 };
                if hand_number >= map.len() {
                    Err("HSS hand map does not cover all hands"@)
                } else {
                    assign_fold(obj, hs, q, map, index + 1, a, d, c, info.update(index, map[hand_number]))
                }
            },
        }
    }
}

/// The beats of the converted pattern: the object and hand siteswaps repeated to the
/// pattern period, and the juggler and side of the hand that throws on each beat.
pub open spec fn hand_layout(
    obj: Seq<Seq<char>>,
    mods: Seq<Seq<Seq<char>>>,
    hs: Seq<char>,
    hand_orbit: int,
    map: Seq<(usize, usize)>,
) -> Result<(Seq<Seq<char>>, Seq<Seq<Seq<char>>>, Seq<char>, Seq<(usize, usize)>), Seq<char>> {
    let q = lcm_spec(obj.len(), hand_orbit as nat) as int;
    let obj2 = repeated_to(obj, q);
    let mods2 = repeated_to(mods, q);
    let hs2 = repeated_to(hs, q);
    match assign_fold(
        obj2,
        hs2,
        q,
        map,
        0,
        Seq::new(q as nat, |i: int| 0int),
        Seq::new(q as nat, |i: int| false),
        0,
        Seq::new(q as nat, |i: int| (0usize, usize::MAX)),
    ) {
        Err(e) => Err(e),
        Ok(info) => Ok((obj2, mods2, hs2, info)),
    }
}

pub open spec fn int_view(v: Seq<usize>) -> Seq<int> {
    Seq::new(v.len(), |i: int| v[i] as int)
}

proof fn lemma_lcm_bounds(x: nat, y: nat)
    ensures
        lcm_spec(x, y) <= x * y,
        x > 0 && y > 0 ==> lcm_spec(x, y) >= x && lcm_spec(x, y) % x == 0,
        x == 0 || y == 0 ==> lcm_spec(x, y) == 0,
{
    if x > 0 && y > 0 {
        lemma_lcm_common_multiple(x, y);
        crate::permutation::lemma_gcd_pos(x, y);
        let g = crate::permutation::gcd(x, y);
        assert((x * y) / g <= x * y) by (nonlinear_arith)
            requires
                g > 0,
                x * y >= 0,
        ;
        let l = lcm_spec(x, y);
        assert(l >= x) by (nonlinear_arith)
            requires
                l > 0,
                l % x == 0,
                x > 0,
        ;
    }
}

fn copy_chars(v: &Vec<char>) -> (r: Vec<char>)
    ensures
        r@ == v@,
{
    let r = slice_of(v, 0, v.len());
    assert(v@.subrange(0, v.len() as int) =~= v@);
    r
}

fn copy_strings(v: &Vec<String>) -> (r: Vec<String>)
    ensures
        Seq::new(r@.len(), |k: int| r@[k]@) == Seq::new(v@.len(), |k: int| v@[k]@),
{
    let mut r: Vec<String> = Vec::new();
    let mut i: usize = 0;
    while i < v.len()
        invariant
            i <= v.len(),
            Seq::new(r@.len(), |k: int| r@[k]@) =~= Seq::new(v@.len(), |k: int| v@[k]@).take(i as int),
        decreases v.len() - i,
    {
        let ghost before = Seq::new(r@.len(), |k: int| r@[k]@);
        r.push(v[i].clone());
        assert(Seq::new(r@.len(), |k: int| r@[k]@) =~= before.push(v@[i as int]@));
        assert(Seq::new(v@.len(), |k: int| v@[k]@).take(i as int + 1) =~= Seq::new(v@.len(), |k: int| v@[k]@).take(
            i as int,
        ).push(v@[i as int]@));
        i = i + 1;
    }
    assert(Seq::new(v@.len(), |k: int| v@[k]@).take(v.len() as int) =~= Seq::new(v@.len(), |k: int| v@[k]@));
    r
}

/// Repeats the object siteswap and the hand siteswap to the pattern period (the `lcm` of
/// the object period and the hand orbit period), numbers the hands along their orbits, and
/// gives each beat the juggler and side of its hand from the hand map.
pub fn lay_out_hands(
    object: &mut ObjectPattern,
    hands: &mut HandPattern,
    hand_orbit: usize,
    handmap: &Vec<(usize, usize)>,
) -> (r: Result<Vec<(usize, usize)>, String>)
    requires
        old(object).throws@.len() * hand_orbit <= usize::MAX / 64,
        old(object).bounce_modifiers@.len() == old(object).throws@.len(),
        old(hands).throws@.len() > 0,
    ensures
        final(hands).hands == old(hands).hands,
        match hand_layout(
            char_rows(old(object).throws@),
            text_rows(old(object).bounce_modifiers@),
            old(hands).throws@,
            hand_orbit as int,
            handmap@,
        ) {
            Ok((o, m, h, info)) => r matches Ok(v) && v@ == info && char_rows(final(object).throws@) == o && text_rows(
                final(object).bounce_modifiers@,
            ) == m && final(hands).throws@ == h,
            Err(e) => r matches Err(x) && x@ == e,
        },
{
    let ghost obj0 = char_rows(object.throws@);
    let ghost mods0 = text_rows(object.bounce_modifiers@);
    let ghost hs0 = hands.throws@;
    let object_period = object.throws.len();
    let hand_period = hands.throws.len();
    proof {
        lemma_lcm_bounds(object_period as nat, hand_orbit as nat);
    }
    let pattern_period = lcm(object_period, hand_orbit);
    let ghost q = pattern_period as int;
    let mut index: usize = object_period;
    proof {
        assert forall|i: int| 0 <= i < object_period implies #[trigger] (i % (object_period as int)) == i by {
            assert(i % (object_period as int) == i) by (nonlinear_arith)
                requires
                    0 <= i < object_period,
            ;
        }
        assert(char_rows(object.throws@) =~= Seq::new(index as nat, |i: int| obj0[i % (object_period as int)]));
        assert(text_rows(object.bounce_modifiers@) =~= Seq::new(index as nat, |i: int| mods0[i % (object_period as int)]));
    }
    while index < pattern_period
        invariant
            object_period <= index,
            index <= pattern_period || index == object_period,
            object_period > 0 || pattern_period == 0,
            object.throws@.len() == index,
            object.bounce_modifiers@.len() == index,
            obj0.len() == object_period,
            mods0.len() == object_period,
            char_rows(object.throws@) =~= Seq::new(index as nat, |i: int| obj0[i % (object_period as int)]),
            text_rows(object.bounce_modifiers@) =~= Seq::new(index as nat, |i: int| mods0[i % (object_period as int)]),
        decreases pattern_period - index,
    {
        let t = copy_chars(&object.throws[index - object_period]);
        let m = copy_strings(&object.bounce_modifiers[index - object_period]);
        proof {
            assert((index as int) % (object_period as int) == (index - object_period) as int % (object_period as int)) by (nonlinear_arith)
                requires
                    index >= object_period,
                    object_period > 0,
            ;
        }
        let ghost rows = char_rows(object.throws@);
        let ghost mrows = text_rows(object.bounce_modifiers@);
        assert(rows[index - object_period] == obj0[(index - object_period) as int % (object_period as int)]);
        assert(mrows[index - object_period] == mods0[(index - object_period) as int % (object_period as int)]);
        let ghost tv = t@;
        let ghost mv = Seq::new(m@.len(), |k: int| m@[k]@);
        object.throws.push(t);
        object.bounce_modifiers.push(m);
        assert(char_rows(object.throws@) =~= rows.push(tv));
        assert(text_rows(object.bounce_modifiers@) =~= mrows.push(mv));
        index = index + 1;
    }
    proof {
        if pattern_period <= object_period {
            assert(char_rows(object.throws@) =~= obj0);
            assert(text_rows(object.bounce_modifiers@) =~= mods0);
        } else {
            assert(char_rows(object.throws@) =~= repeated_to(obj0, q));
            assert(text_rows(object.bounce_modifiers@) =~= repeated_to(mods0, q));
        }
    }
    let mut hindex: usize = hand_period;
    proof {
        assert forall|i: int| 0 <= i < hand_period implies #[trigger] (i % (hand_period as int)) == i by {
            assert(i % (hand_period as int) == i) by (nonlinear_arith)
                requires
                    0 <= i < hand_period,
            ;
        }
        assert(hands.throws@ =~= Seq::new(hindex as nat, |i: int| hs0[i % (hand_period as int)]));
    }
    while hindex < pattern_period
        invariant
            hand_period <= hindex,
            hindex <= pattern_period || hindex == hand_period,
            hand_period > 0,
            hands.throws@.len() == hindex,
            hands.hands == old(hands).hands,
            hs0.len() == hand_period,
            hands.throws@ =~= Seq::new(hindex as nat, |i: int| hs0[i % (hand_period as int)]),
        decreases pattern_period - hindex,
    {
        let c = hands.throws[hindex - hand_period];
        proof {
            assert((hindex as int) % (hand_period as int) == (hindex - hand_period) as int % (hand_period as int)) by (nonlinear_arith)
                requires
                    hindex >= hand_period,
                    hand_period > 0,
            ;
        }
        hands.throws.push(c);
        hindex = hindex + 1;
    }
    proof {
        if pattern_period <= hand_period {
            assert(hands.throws@ =~= hs0);
        } else {
            assert(hands.throws@ =~= repeated_to(hs0, q));
        }
    }
    let ghost obj2 = char_rows(object.throws@);
    let ghost hs2 = hands.throws@;
    assign_hands(&object.throws, &hands.throws, pattern_period, handmap)
}

/// Whether a beat of the object siteswap throws something other than `0`.
fn beat_throws_something(beat: &Vec<char>) -> (r: bool)
    ensures
        r == throws_something(beat@),
{
    let mut k: usize = 0;
    while k < beat.len()
        invariant
            k <= beat.len(),
            forall|j: int| 0 <= j < k ==> beat@[j] == '0',
        decreases beat.len() - k,
    {
        if beat[k] != '0' {
            return true;
        }
        k = k + 1;
    }
    false
}

/// Walks the orbit of the hand on beat `index` from `next`, numbering its beats `hand`;
/// false when it does not come back within `q` throws.
fn walk_hand(hs: &Vec<char>, q: usize, index: usize, next: usize, assigned: &mut Vec<usize>, done: &mut Vec<bool>, hand: usize) -> (r: bool)
    requires
        index < q,
        next < q,
        q + 36 <= usize::MAX,
        hs@.len() >= q,
        old(assigned)@.len() == q,
        old(done)@.len() == q,
    ensures
        final(assigned)@.len() == q,
        final(done)@.len() == q,
        match hand_walk(hs@, q as int, index as int, next as int, int_view(old(assigned)@), old(done)@, hand as int, q as nat) {
            None => !r,
            Some((a, d)) => r && int_view(final(assigned)@) == a && final(done)@ == d,
        },
{
    let ghost walk = hand_walk(hs@, q as int, index as int, next as int, int_view(assigned@), done@, hand as int, q as nat);
    let mut cursor = next;
    let mut fuel: usize = q;
    while cursor != index
        invariant
            index < q,
            q + 36 <= usize::MAX,
            hs@.len() >= q,
            cursor < q,
            fuel <= q,
            assigned@.len() == q,
            done@.len() == q,
            walk == hand_walk(hs@, q as int, index as int, cursor as int, int_view(assigned@), done@, hand as int, fuel as nat),
            walk == hand_walk(hs@, q as int, index as int, next as int, int_view(old(assigned)@), old(done)@, hand as int, q as nat),
        decreases fuel,
    {
        if fuel == 0 {
            assert(walk is None);
            return false;
        }
        let ghost av = int_view(assigned@);
        assigned.set(cursor, hand);
        assert(int_view(assigned@) =~= av.update(cursor as int, hand as int));
        done.set(cursor, true);
        let w = match numeric_value(hs[cursor]) {
            Some(w) => w,
            None => 0,
        };
        cursor = (cursor + w) % q;
        fuel = fuel - 1;
    }
    true
}

/// Numbers the hands along their orbits of `q` beats and gives each beat the juggler and
/// side of its hand.
fn assign_hands(object: &Vec<Vec<char>>, hs: &Vec<char>, q: usize, handmap: &Vec<(usize, usize)>) -> (r: Result<Vec<(usize, usize)>, String>)
    requires
        object@.len() >= q,
        hs@.len() >= q,
        q + 36 <= usize::MAX,
    ensures
        match assign_fold(
            char_rows(object@),
            hs@,
            q as int,
            handmap@,
            0,
            Seq::new(q as nat, |i: int| 0int),
            Seq::new(q as nat, |i: int| false),
            0,
            Seq::new(q as nat, |i: int| (0usize, usize::MAX)),
        ) {
            Ok(info) => r matches Ok(v) && v@ == info,
            Err(e) => r matches Err(x) && x@ == e,
        },
{
    let ghost obj = char_rows(object@);
    let mut assigned: Vec<usize> = Vec::new();
    let mut done: Vec<bool> = Vec::new();
    let mut info: Vec<(usize, usize)> = Vec::new();
    let mut z: usize = 0;
    while z < q
        invariant
            z <= q,
            int_view(assigned@) =~= Seq::new(z as nat, |i: int| 0int),
            done@ =~= Seq::new(z as nat, |i: int| false),
            info@ =~= Seq::new(z as nat, |i: int| (0usize, usize::MAX)),
        decreases q - z,
    {
        let ghost av = int_view(assigned@);
        assigned.push(0);
        assert(int_view(assigned@) =~= av.push(0int));
        done.push(false);
        info.push((0, usize::MAX));
        z = z + 1;
    }
    let ghost start = assign_fold(obj, hs@, q as int, handmap@, 0, int_view(assigned@), done@, 0, info@);
    assert(start == assign_fold(
        char_rows(object@),
        hs@,
        q as int,
        handmap@,
        0,
        Seq::new(q as nat, |i: int| 0int),
        Seq::new(q as nat, |i: int| false),
        0,
        Seq::new(q as nat, |i: int| (0usize, usize::MAX)),
    ));
    let mut current: usize = 0;
    let mut index: usize = 0;
    while index < q
        invariant
            index <= q,
            q + 36 <= usize::MAX,
            object@.len() >= q,
            hs@.len() >= q,
            obj == char_rows(object@),
            assigned@.len() == q,
            done@.len() == q,
            info@.len() == q,
            current <= index,
            start == assign_fold(obj, hs@, q as int, handmap@, index as int, int_view(assigned@), done@, current as int, info@),
            start == assign_fold(
                char_rows(object@),
                hs@,
                q as int,
                handmap@,
                0,
                Seq::new(q as nat, |i: int| 0int),
                Seq::new(q as nat, |i: int| false),
                0,
                Seq::new(q as nat, |i: int| (0usize, usize::MAX)),
            ),
        decreases q - index,
    {
        if hs[index] == '0' {
            assert(obj[index as int] == object@[index as int]@);
            if beat_throws_something(&object[index]) {
                assert(start == Err::<Seq<(usize, usize)>, Seq<char>>("HSS has no hand available to throw at beat "@ + decimal((index + 1) as nat)));
                let mut m: Vec<char> = Vec::new();
                push_str(&mut m, "HSS has no hand available to throw at beat ");
                push_decimal(&mut m, (index + 1) as u64);
                return Err(string_from_chars(&m));
            }
            done.set(index, true);
        } else {
            if !done[index] {
                current = current + 1;
                let ghost av0 = int_view(assigned@);
                assigned.set(index, current);
                assert(int_view(assigned@) =~= av0.update(index as int, current as int));
                done.set(index, true);
                let v = match numeric_value(hs[index]) {
                    Some(v) => v,
                    None => 0,
                };
                let next = (index + v) % q;
                if !walk_hand(hs, q, index, next, &mut assigned, &mut done, current) {
                    return Err("HSS hand siteswap is not a valid permutation".to_owned());
                }
            }
            let a = assigned[index];
            let hand_number = if a >= 1 {
                a - 1
            } else {
                0
            };
            if hand_number >= handmap.len() {
                return Err("HSS hand map does not cover all hands".to_owned());
            }
            info.set(index, handmap[hand_number]);
        }
        index = index + 1;
    }
    Ok(info)
}


/// The beat on which throw `k` of beat `i` is caught.
pub open spec fn catching_beat(object: Seq<Seq<char>>, i: int, k: int) -> int {
    (i + value_or_zero(object[i][k])) % (object.len() as int)
}

/// A pass names the juggler who catches it: when the beat on which a throw is caught
/// belongs to another juggler than the beat it is thrown on, its modifier is an optional
/// `x`, then `p` and the number of the catching juggler, then the throw's bounce modifier.
pub proof fn lemma_pass_names_catcher(
    object: Seq<Seq<char>>,
    bounce: Seq<Seq<Seq<char>>>,
    hands: Seq<char>,
    info: Seq<(usize, usize)>,
    hold: bool,
    i: int,
    k: int,
)
    requires
        0 <= i < object.len(),
        0 <= k < object[i].len(),
        info.len() >= object.len(),
        info[i].0 != info[catching_beat(object, i, k)].0,
    ensures
        exists|pre: Seq<char>|
            (pre == Seq::<char>::empty() || pre == seq!['x']) && #[trigger] all_modifiers(
                object,
                bounce,
                hands,
                info,
                hold,
            )[i][k] == pre + seq!['p'] + decimal(info[catching_beat(object, i, k)].0 as nat) + bounce[i][k],
{
    let m = throw_modifier(object, bounce, hands, info, hold, i, k);
    let period = object.len() as int;
    let value = value_or_zero(object[i][k]);
    let t = (i + value) % period;
    let (sj, sh) = info[i];
    let (tj, th) = info[t];
    let pre = if (value % 2 == 0 && sh != th) || (value % 2 != 0 && sh == th) {
        seq!['x']
    } else {
        Seq::<char>::empty()
    };
    assert(all_modifiers(object, bounce, hands, info, hold)[i][k] == m);
    assert(m =~= pre + seq!['p'] + decimal(tj as nat) + bounce[i][k]);
}

/// A throw caught by the juggler who throws it is no pass: its modifier is an optional `x`,
/// then an optional `H`, then the throw's bounce modifier, with no `p` before it.
pub proof fn lemma_self_throw_has_no_pass(
    object: Seq<Seq<char>>,
    bounce: Seq<Seq<Seq<char>>>,
    hands: Seq<char>,
    info: Seq<(usize, usize)>,
    hold: bool,
    i: int,
    k: int,
)
    requires
        0 <= i < object.len(),
        0 <= k < object[i].len(),
        info.len() >= object.len(),
        info[i].0 == info[catching_beat(object, i, k)].0,
    ensures
        exists|pre: Seq<char>, q: Seq<char>|
            (pre == Seq::<char>::empty() || pre == seq!['x']) && (q == Seq::<char>::empty() || q
                == seq!['H']) && #[trigger] all_modifiers(object, bounce, hands, info, hold)[i][k]
                == pre + q + bounce[i][k],
{
    let m = throw_modifier(object, bounce, hands, info, hold, i, k);
    let period = object.len() as int;
    let value = value_or_zero(object[i][k]);
    let t = (i + value) % period;
    let (sj, sh) = info[i];
    let (tj, th) = info[t];
    let pre = if (value % 2 == 0 && sh != th) || (value % 2 != 0 && sh == th) {
        seq!['x']
    } else {
        Seq::<char>::empty()
    };
    let q = if hold && value == value_or_zero(hands[i]) {
        seq!['H']
    } else {
        Seq::<char>::empty()
    };
    assert(all_modifiers(object, bounce, hands, info, hold)[i][k] == m);
    assert(m =~= pre + q + bounce[i][k]);
}

} // verus!
