use vstd::prelude::*;
use crate::text::{
    is_ws, is_whitespace, is_digit, parsed_usize, parse_usize, slice_of, chars_of,
    string_from_chars, split_on,
};

verus! {

// ---------------------------------------------------------------------------------------
// Repeats: `(text)^n` stands for `text` written `n` times; repeats nest.
// ---------------------------------------------------------------------------------------

/// The first position at or after `i` that is not whitespace.
pub open spec fn skip_ws(s: Seq<char>, i: int) -> int
    decreases s.len() - i,
{
    if 0 <= i < s.len() && is_ws(s[i]) {
        skip_ws(s, i + 1)
    } else {
        i
    }
}

/// The first position at or after `i` that is not an ASCII digit.
pub open spec fn skip_digits(s: Seq<char>, i: int) -> int
    decreases s.len() - i,
{
    if 0 <= i < s.len() && is_digit(s[i]) {
        skip_digits(s, i + 1)
    } else {
        i
    }
}

/// The position of the `)` that closes a group, scanning from `j` with `depth` groups open,
/// or -1 when the text ends first.
pub open spec fn close_from(s: Seq<char>, j: int, depth: int) -> int
    decreases s.len() - j,
{
    if j < 0 || j >= s.len() {
        -1
    } else if s[j] == '(' {
        close_from(s, j + 1, depth + 1)
    } else if s[j] == ')' {
        if depth == 1 {
            j
        } else {
            close_from(s, j + 1, depth - 1)
        }
    } else {
        close_from(s, j + 1, depth)
    }
}

/// A repeat that starts with the `(` at `pos`: the position of its `)`, the count, and the
/// position just after the count. Whitespace may stand around the `^`.
pub open spec fn repeat_at(s: Seq<char>, pos: int) -> Option<(int, nat, int)> {
    if !(0 <= pos < s.len() && s[pos] == '(') {
        None
    } else {
        let j = close_from(s, pos + 1, 1);
        if j < 0 {
            None
        } else {
            let k1 = skip_ws(s, j + 1);
            if k1 >= s.len() || s[k1] != '^' {
                None
            } else {
                let k2 = skip_ws(s, k1 + 1);
                let k3 = skip_digits(s, k2);
                if k3 == k2 {
                    None
                } else {
                    match parsed_usize(s.subrange(k2, k3)) {
                        Some(n) => Some((j, n as nat, k3)),
                        None => None,
                    }
                }
            }
        }
    }
}

proof fn lemma_skip_ws(s: Seq<char>, i: int)
    requires
        0 <= i <= s.len(),
    ensures
        i <= skip_ws(s, i) <= s.len(),
        forall|k: int| i <= k < skip_ws(s, i) ==> is_ws(#[trigger] s[k]),
        skip_ws(s, i) < s.len() ==> !is_ws(s[skip_ws(s, i)]),
    decreases s.len() - i,
{
    if i < s.len() && is_ws(s[i]) {
        lemma_skip_ws(s, i + 1);
    }
}

proof fn lemma_skip_digits(s: Seq<char>, i: int)
    requires
        0 <= i <= s.len(),
    ensures
        i <= skip_digits(s, i) <= s.len(),
        forall|k: int| i <= k < skip_digits(s, i) ==> is_digit(#[trigger] s[k]),
        skip_digits(s, i) < s.len() ==> !is_digit(s[skip_digits(s, i)]),
    decreases s.len() - i,
{
    if i < s.len() && is_digit(s[i]) {
        lemma_skip_digits(s, i + 1);
    }
}

proof fn lemma_close_from(s: Seq<char>, j: int, depth: int)
    requires
        0 <= j,
    ensures
        close_from(s, j, depth) == -1 || j <= close_from(s, j, depth) < s.len(),
    decreases s.len() - j,
{
    if j < s.len() {
        if s[j] == '(' {
            lemma_close_from(s, j + 1, depth + 1);
        } else if s[j] == ')' {
            if depth != 1 {
                lemma_close_from(s, j + 1, depth - 1);
            }
        } else {
            lemma_close_from(s, j + 1, depth);
        }
    }
}

pub proof fn lemma_repeat_at_bounds(s: Seq<char>, pos: int)
    ensures
        repeat_at(s, pos) matches Some((j, n, k)) ==> pos < j && j < k && k <= s.len(),
{
    if 0 <= pos < s.len() && s[pos] == '(' {
        let j = close_from(s, pos + 1, 1);
        lemma_close_from(s, pos + 1, 1);
        if j >= 0 {
            lemma_skip_ws(s, j + 1);
            let k1 = skip_ws(s, j + 1);
            if k1 < s.len() && s[k1] == '^' {
                lemma_skip_ws(s, k1 + 1);
                lemma_skip_digits(s, skip_ws(s, k1 + 1));
            }
        }
    }
}

/// `t` written `n` times.
pub open spec fn repeat_seq(t: Seq<char>, n: nat) -> Seq<char>
    decreases n,
{
    if n == 0 {
        Seq::empty()
    } else {
        repeat_seq(t, (n - 1) as nat) + t
    }
}

/// The expansion of `s` from position `pos` on.
pub open spec fn expand_from(s: Seq<char>, pos: int) -> Seq<char>
    decreases s.len(), s.len() - pos,
{
    if pos < 0 || pos >= s.len() {
        Seq::empty()
    } else {
        match repeat_at(s, pos) {
            Some((j, n, k)) => {
                proof {
                    lemma_repeat_at_bounds(s, pos);
                }
                repeat_seq(expand_from(s.subrange(pos + 1, j), 0), n) + expand_from(s, k)
            },
            None => seq![s[pos]] + expand_from(s, pos + 1),
        }
    }
}

/// The text with every repeat written out.
pub open spec fn expand(s: Seq<char>) -> Seq<char> {
    expand_from(s, 0)
}

fn skip_whitespace(v: &Vec<char>, i: usize) -> (r: usize)
    requires
        i <= v.len(),
    ensures
        r == skip_ws(v@, i as int),
{
    let mut k = i;
    while k < v.len() && is_whitespace(v[k])
        invariant
            i <= k <= v.len(),
            skip_ws(v@, i as int) == skip_ws(v@, k as int),
        decreases v.len() - k,
    {
        k = k + 1;
    }
    k
}

fn skip_ascii_digits(v: &Vec<char>, i: usize) -> (r: usize)
    requires
        i <= v.len(),
    ensures
        r == skip_digits(v@, i as int),
{
    let mut k = i;
    while k < v.len() && '0' <= v[k] && v[k] <= '9'
        invariant
            i <= k <= v.len(),
            skip_digits(v@, i as int) == skip_digits(v@, k as int),
        decreases v.len() - k,
    {
        k = k + 1;
    }
    k
}

/// Reads the repeat that starts with the `(` at `from_pos`, if there is one there.
fn try_parse_repeat(chars: &Vec<char>, from_pos: usize) -> (r: Option<(usize, usize, usize)>)
    requires
        from_pos < chars.len(),
        chars@[from_pos as int] == '(',
    ensures
        match r {
            Some((a, b, c)) => repeat_at(chars@, from_pos as int) == Some(
                (a as int, b as nat, c as int),
            ),
            None => repeat_at(chars@, from_pos as int) is None,
        },
{
    let ghost s = chars@;
    let mut depth: usize = 1;
    let mut pos: usize = from_pos + 1;
    while pos < chars.len()
        invariant
            from_pos < pos <= chars.len(),
            s == chars@,
            s[from_pos as int] == '(',
            depth >= 1,
            depth <= pos - from_pos,
            close_from(s, from_pos as int + 1, 1) == close_from(s, pos as int, depth as int),
        decreases chars.len() - pos,
    {
        if chars[pos] == '(' {
            depth = depth + 1;
        } else if chars[pos] == ')' {
            if depth == 1 {
                proof {
                    lemma_skip_ws(s, pos as int + 1);
                }
                let k1 = skip_whitespace(chars, pos + 1);
                if k1 >= chars.len() || chars[k1] != '^' {
                    return None;
                }
                proof {
                    lemma_skip_ws(s, k1 as int + 1);
                }
                let k2 = skip_whitespace(chars, k1 + 1);
                proof {
                    lemma_skip_digits(s, k2 as int);
                }
                let k3 = skip_ascii_digits(chars, k2);
                if k3 == k2 {
                    return None;
                }
                let digits = slice_of(chars, k2, k3);
                proof {
                    assert(close_from(s, pos as int, 1) == pos);
                }
                let parsed = parse_usize(&digits);
                return match parsed {
                    Some(n) => {
                        assert(repeat_at(s, from_pos as int) == Some((pos as int, n as nat, k3 as int)));
                        Some((pos, n, k3))
                    },
                    None => None,
                };
            }
            depth = depth - 1;
        }
        pos = pos + 1;
    }
    None
}

/// Appends the expansion of `chars` to `output`.
fn add_expansion_to_buffer(chars: &Vec<char>, output: &mut Vec<char>)
    ensures
        final(output)@ == old(output)@ + expand(chars@),
    decreases chars.len(),
{
    let ghost s = chars@;
    let ghost start = output@;
    let mut pos: usize = 0;
    while pos < chars.len()
        invariant
            s == chars@,
            pos <= chars.len(),
            start + expand_from(s, 0) == output@ + expand_from(s, pos as int),
        decreases chars.len() - pos,
    {
        let mut handled = false;
        if chars[pos] == '(' {
            proof {
                lemma_repeat_at_bounds(s, pos as int);
            }
            match try_parse_repeat(chars, pos) {
                Some((repeat_end, repeats, resume_start)) => {
                    let repeated = slice_of(chars, pos + 1, repeat_end);
                    let ghost body = expand(repeated@);
                    let ghost before = output@;
                    let mut r: usize = 0;
                    while r < repeats
                        invariant
                            r <= repeats,
                            s == chars@,
                            pos + 1 <= repeat_end <= s.len(),
                            repeated@ == s.subrange(pos as int + 1, repeat_end as int),
                            repeated.len() < s.len(),
                            body == expand(repeated@),
                            output@ == before + repeat_seq(body, r as nat),
                        decreases repeats - r,
                    {
                        add_expansion_to_buffer(&repeated, output);
                        r = r + 1;
                        assert(output@ =~= before + repeat_seq(body, r as nat));
                    }
                    proof {
                        assert(expand_from(s, pos as int) == repeat_seq(body, repeats as nat)
                            + expand_from(s, resume_start as int));
                        assert(output@ + expand_from(s, resume_start as int) =~= before
                            + expand_from(s, pos as int));
                    }
                    pos = resume_start;
                    handled = true;
                },
                None => {},
            }
        }
        if !handled {
            proof {
                assert(repeat_at(s, pos as int) is None);
                assert(expand_from(s, pos as int) == seq![s[pos as int]] + expand_from(
                    s,
                    pos as int + 1,
                ));
            }
            output.push(chars[pos]);
            pos = pos + 1;
            assert(output@ + expand_from(s, pos as int) =~= (output@.drop_last() + seq![
                s[pos - 1],
            ]) + expand_from(s, pos as int));
        }
    }
}

/// Writes out every repeat `(text)^n` of the input, innermost first.
pub fn expand_repeats(input: &str) -> (r: String)
    ensures
        r@ == expand(input@),
{
    let chars = chars_of(input);
    let mut output: Vec<char> = Vec::new();
    add_expansion_to_buffer(&chars, &mut output);
    assert(output@ =~= expand(input@));
    string_from_chars(&output)
}

/// A text without `(` has no repeat and expands to itself.
pub proof fn lemma_expand_plain(s: Seq<char>)
    requires
        !s.contains('('),
    ensures
        expand(s) == s,
{
    lemma_expand_plain_from(s, 0);
    assert(s.subrange(0, s.len() as int) =~= s);
}

proof fn lemma_expand_plain_from(s: Seq<char>, pos: int)
    requires
        !s.contains('('),
        0 <= pos <= s.len(),
    ensures
        expand_from(s, pos) == s.subrange(pos, s.len() as int),
    decreases s.len() - pos,
{
    if pos < s.len() {
        assert(s[pos] != '(');
        lemma_expand_plain_from(s, pos + 1);
        assert(s.subrange(pos, s.len() as int) =~= seq![s[pos]] + s.subrange(
            pos + 1,
            s.len() as int,
        ));
    } else {
        assert(s.subrange(pos, s.len() as int) =~= Seq::<char>::empty());
    }
}

// ---------------------------------------------------------------------------------------
// Splitting at a delimiter that stands outside parentheses.
// ---------------------------------------------------------------------------------------

/// How many `(` are open at the end of `s` (each `)` closes one).
pub open spec fn paren_level(s: Seq<char>) -> int
    decreases s.len(),
{
    if s.len() == 0 {
        0
    } else {
        paren_level(s.drop_last()) + if s.last() == '(' {
            1int
        } else if s.last() == ')' {
            -1int
        } else {
            0int
        }
    }
}

/// The pieces of `s` between the delimiters that stand at parenthesis level 0.
pub open spec fn split_outside(s: Seq<char>, d: char) -> Seq<Seq<char>>
    decreases s.len(),
{
    if s.len() == 0 {
        seq![Seq::empty()]
    } else {
        let r = split_outside(s.drop_last(), d);
        let c = s.last();
        if c != '(' && c != ')' && c == d && paren_level(s.drop_last()) == 0 {
            r.push(Seq::empty())
        } else {
            r.update(r.len() - 1, r.last().push(c))
        }
    }
}

/// The pieces, without a last empty piece when there are several.
pub open spec fn split_outside_parens(s: Seq<char>, d: char) -> Seq<Seq<char>> {
    let r = split_outside(s, d);
    if r.len() > 1 && r.last().len() == 0 {
        r.drop_last()
    } else {
        r
    }
}

/// The pieces joined again with the delimiter between them.
pub open spec fn join_with(r: Seq<Seq<char>>, d: char) -> Seq<char>
    decreases r.len(),
{
    if r.len() == 0 {
        Seq::empty()
    } else if r.len() == 1 {
        r[0]
    } else {
        join_with(r.drop_last(), d) + seq![d] + r.last()
    }
}

proof fn lemma_split_outside_len(s: Seq<char>, d: char)
    ensures
        split_outside(s, d).len() >= 1,
    decreases s.len(),
{
    if s.len() > 0 {
        lemma_split_outside_len(s.drop_last(), d);
    }
}

/// Joining the pieces with the delimiter gives back the text.
pub proof fn lemma_split_outside_join(s: Seq<char>, d: char)
    ensures
        join_with(split_outside(s, d), d) == s,
    decreases s.len(),
{
    if s.len() > 0 {
        let t = s.drop_last();
        let r = split_outside(t, d);
        lemma_split_outside_len(t, d);
        lemma_split_outside_join(t, d);
        let c = s.last();
        if c != '(' && c != ')' && c == d && paren_level(t) == 0 {
            let q = r.push(Seq::empty());
            assert(q.drop_last() =~= r);
            assert(join_with(q, d) =~= s);
        } else {
            let q = r.update(r.len() - 1, r.last().push(c));
            assert(s =~= t.push(c));
            if r.len() == 1 {
                assert(join_with(q, d) =~= s);
            } else {
                assert(q.drop_last() =~= r.drop_last());
                assert(join_with(q, d) =~= s);
            }
        }
    }
}

/// What `split_on_char_outside_parens` keeps: joined with the delimiter, the pieces give
/// the text back, or the text without its last character when that was a delimiter whose
/// empty piece was dropped.
pub proof fn lemma_split_outside_parens_join(s: Seq<char>, d: char)
    ensures
        join_with(split_outside_parens(s, d), d) == s || join_with(split_outside_parens(s, d), d)
            + seq![d] == s,
{
    lemma_split_outside_join(s, d);
    let r = split_outside(s, d);
    if r.len() > 1 && r.last().len() == 0 {
        assert(join_with(r, d) == join_with(r.drop_last(), d) + seq![d] + r.last());
        assert(join_with(r, d) =~= join_with(r.drop_last(), d) + seq![d]);
    }
}

proof fn lemma_paren_level_plain(s: Seq<char>)
    requires
        !s.contains('('),
        !s.contains(')'),
    ensures
        paren_level(s) == 0,
    decreases s.len(),
{
    if s.len() > 0 {
        let t = s.drop_last();
        assert(!t.contains('(')) by {
            if t.contains('(') {
                let i = choose|i: int| 0 <= i < t.len() && t[i] == '(';
                assert(s[i] == '(');
            }
        }
        assert(!t.contains(')')) by {
            if t.contains(')') {
                let i = choose|i: int| 0 <= i < t.len() && t[i] == ')';
                assert(s[i] == ')');
            }
        }
        assert(s.last() != '(' && s.last() != ')') by {
            assert(s[s.len() - 1] == s.last());
        }
        lemma_paren_level_plain(t);
    }
}

/// Without parentheses, splitting outside parentheses is a plain split at the delimiter
/// (with a last empty piece dropped when there are several).
pub proof fn lemma_split_outside_plain(s: Seq<char>, d: char)
    requires
        !s.contains('('),
        !s.contains(')'),
    ensures
        split_outside(s, d) == split_on(s, d),
        split_outside_parens(s, d) == ({
            let r = split_on(s, d);
            if r.len() > 1 && r.last().len() == 0 {
                r.drop_last()
            } else {
                r
            }
        }),
    decreases s.len(),
{
    if s.len() > 0 {
        let t = s.drop_last();
        assert(!t.contains('(')) by {
            if t.contains('(') {
                let i = choose|i: int| 0 <= i < t.len() && t[i] == '(';
                assert(s[i] == '(');
            }
        }
        assert(!t.contains(')')) by {
            if t.contains(')') {
                let i = choose|i: int| 0 <= i < t.len() && t[i] == ')';
                assert(s[i] == ')');
            }
        }
        assert(s.last() != '(' && s.last() != ')') by {
            assert(s[s.len() - 1] == s.last());
        }
        lemma_split_outside_plain(t, d);
        lemma_paren_level_plain(t);
    }
}

/// Splits `input` at each `delimiter` that stands outside parentheses; a last empty piece
/// is dropped when there are several.
pub fn split_on_char_outside_parens(input: &str, delimiter: char) -> (r: Vec<String>)
    requires
        forall|k: int|
            0 <= k <= input@.len() ==> i32::MIN <= #[trigger] paren_level(input@.take(k)) <= i32::MAX,
    ensures
        r.len() == split_outside_parens(input@, delimiter).len(),
        forall|i: int| 0 <= i < r.len() ==> #[trigger] r@[i]@ == split_outside_parens(
            input@,
            delimiter,
        )[i],
{
    let chars = chars_of(input);
    let ghost s = chars@;
    let mut pieces: Vec<Vec<char>> = Vec::new();
    let mut current: Vec<char> = Vec::new();
    let mut paren_level_now: i32 = 0;
    let mut i: usize = 0;
    assert(s.take(0) =~= Seq::<char>::empty());
    while i < chars.len()
        invariant
            s == chars@,
            s == input@,
            forall|k: int| 0 <= k <= s.len() ==> i32::MIN <= #[trigger] paren_level(s.take(k)) <= i32::MAX,
            i <= s.len(),
            paren_level_now == paren_level(s.take(i as int)),
            Seq::new(pieces.len() as nat, |k: int| pieces@[k]@).push(current@) == split_outside(
                s.take(i as int),
                delimiter,
            ),
        decreases chars.len() - i,
    {
        let ch = chars[i];
        let ghost t = s.take(i as int);
        let ghost t1 = s.take(i as int + 1);
        assert(t1.drop_last() =~= t);
        assert(t1.last() == ch);
        proof {
            lemma_split_outside_len(t, delimiter);
        }
        assert(i32::MIN <= paren_level(t1) <= i32::MAX);
        if ch == '(' {
            paren_level_now = paren_level_now + 1;
            current.push(ch);
        } else if ch == ')' {
            paren_level_now = paren_level_now - 1;
            current.push(ch);
        } else if ch == delimiter && paren_level_now == 0 {
            let done = current;
            pieces.push(done);
            current = Vec::new();
        } else {
            current.push(ch);
        }
        assert(Seq::new(pieces.len() as nat, |k: int| pieces@[k]@).push(current@) =~= split_outside(
            t1,
            delimiter,
        ));
        i = i + 1;
    }
    assert(s.take(s.len() as int) =~= s);
    pieces.push(current);
    let ghost all = split_outside(s, delimiter);
    assert(Seq::new(pieces.len() as nat, |k: int| pieces@[k]@) =~= all);
    let n = pieces.len();
    let keep: usize = if n > 1 && pieces[n - 1].len() == 0 { n - 1 } else { n };
    let mut result: Vec<String> = Vec::new();
    let mut k: usize = 0;
    while k < keep
        invariant
            keep <= pieces.len(),
            n == pieces.len(),
            all == split_outside(input@, delimiter),
            Seq::new(pieces.len() as nat, |q: int| pieces@[q]@) == all,
            keep == split_outside_parens(input@, delimiter).len(),
            k <= keep,
            result.len() == k,
            forall|q: int| 0 <= q < k ==> #[trigger] result@[q]@ == all[q],
        decreases keep - k,
    {
        let piece = string_from_chars(&pieces[k]);
        result.push(piece);
        proof {
            assert(pieces@[k as int]@ == all[k as int]);
        }
        k = k + 1;
    }
    result
}

} // verus!
