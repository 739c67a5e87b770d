use vstd::prelude::*;
use crate::text::{
    chars_of, string_from_chars, push_all, push_str, push_decimal, decimal, trim, trim_chars,
    lower_all, to_ascii_lowercase, is_text, split_on, split_chars, views, parsed_u32, parse_u32,
    contains_char,
};

verus! {

/// The CSS colour of a colour name (in any ASCII case); red for an unknown name.
pub open spec fn named_color(name: Seq<char>) -> Seq<char> {
    let n = lower_all(name);
    if n == "transparent"@ {
        "rgba(0,0,0,0)"@
    } else if n == "black"@ {
        "#000000"@
    } else if n == "blue"@ {
        "#0000ff"@
    } else if n == "cyan"@ {
        "#00ffff"@
    } else if n == "gray"@ || n == "grey"@ {
        "#808080"@
    } else if n == "green"@ {
        "#008000"@
    } else if n == "magenta"@ {
        "#ff00ff"@
    } else if n == "orange"@ {
        "#ffc800"@
    } else if n == "pink"@ {
        "#ffafaf"@
    } else if n == "red"@ {
        "#ff0000"@
    } else if n == "white"@ {
        "#ffffff"@
    } else if n == "yellow"@ {
        "#ffff00"@
    } else {
        "#ff0000"@
    }
}

pub fn css_color_name(name: &str) -> (r: &'static str)
    ensures
        r@ == named_color(name@),
{
    let n = to_ascii_lowercase(&chars_of(name));
    if is_text(&n, "transparent") {
        "rgba(0,0,0,0)"
    } else if is_text(&n, "black") {
        "#000000"
    } else if is_text(&n, "blue") {
        "#0000ff"
    } else if is_text(&n, "cyan") {
        "#00ffff"
    } else if is_text(&n, "gray") || is_text(&n, "grey") {
        "#808080"
    } else if is_text(&n, "green") {
        "#008000"
    } else if is_text(&n, "magenta") {
        "#ff00ff"
    } else if is_text(&n, "orange") {
        "#ffc800"
    } else if is_text(&n, "pink") {
        "#ffafaf"
    } else if is_text(&n, "red") {
        "#ff0000"
    } else if is_text(&n, "white") {
        "#ffffff"
    } else if is_text(&n, "yellow") {
        "#ffff00"
    } else {
        "#ff0000"
    }
}

/// `s` without the character `c` repeated at either end.
pub open spec fn strip_char(s: Seq<char>, c: char) -> Seq<char>
    decreases s.len(),
{
    if s.len() > 0 && s[0] == c {
        strip_char(s.drop_first(), c)
    } else if s.len() > 0 && s.last() == c {
        strip_char(s.drop_last(), c)
    } else {
        s
    }
}

fn strip_char_exec(v: &Vec<char>, c: char) -> (r: Vec<char>)
    ensures
        r@ == strip_char(v@, c),
{
    let mut lo: usize = 0;
    let mut hi: usize = v.len();
    assert(v@.subrange(0, v.len() as int) =~= v@);
    while lo < hi && (v[lo] == c || v[hi - 1] == c)
        invariant
            lo <= hi <= v.len(),
            strip_char(v@, c) == strip_char(v@.subrange(lo as int, hi as int), c),
        decreases hi - lo,
    {
        let ghost t = v@.subrange(lo as int, hi as int);
        if v[lo] == c {
            assert(t.drop_first() =~= v@.subrange(lo as int + 1, hi as int));
            lo = lo + 1;
        } else {
            assert(t.drop_last() =~= v@.subrange(lo as int, hi as int - 1));
            hi = hi - 1;
        }
    }
    crate::text::slice_of(v, lo, hi)
}

/// A colour component: a whole number from 0 to 255.
pub open spec fn component(token: Seq<char>) -> Option<nat> {
    match parsed_u32(trim(token)) {
        Some(v) => if v <= 255 {
            Some(v as nat)
        } else {
            None
        },
        None => None,
    }
}

/// Three digits, with leading zeros.
pub open spec fn three_digits(n: nat) -> Seq<char> {
    if n < 10 {
        seq!['0', '0'] + decimal(n)
    } else if n < 100 {
        seq!['0'] + decimal(n)
    } else {
        decimal(n)
    }
}

/// `a / 255` written with three decimals, rounded (the exact quotient is never halfway).
pub open spec fn alpha_text(a: nat) -> Seq<char> {
    let t = (2000 * a + 255) / 510;
    decimal(t / 1000) + seq!['.'] + three_digits(t % 1000)
}

/// What a colour setting gives: `{r,g,b}` or `{r,g,b,a}` as CSS `rgb`/`rgba`, else the
/// colour of the name.
pub open spec fn color_of(value: Seq<char>) -> Result<Seq<char>, Seq<char>> {
    let t = trim(value);
    if t.contains(',') {
        let tokens = split_on(strip_char(strip_char(t, '{'), '}'), ',');
        let bad = "Invalid prop color: "@ + value;
        if exists|i: int| 0 <= i < tokens.len() && #[trigger] component(tokens[i]) is None {
            Err(bad)
        } else if tokens.len() == 3 {
            Ok(
                "rgb("@ + decimal(component(tokens[0])->0) + seq![','] + decimal(
                    component(tokens[1])->0,
                ) + seq![','] + decimal(component(tokens[2])->0) + seq![')'],
            )
        } else if tokens.len() == 4 {
            Ok(
                "rgba("@ + decimal(component(tokens[0])->0) + seq![','] + decimal(
                    component(tokens[1])->0,
                ) + seq![','] + decimal(component(tokens[2])->0) + seq![','] + alpha_text(
                    component(tokens[3])->0,
                ) + seq![')'],
            )
        } else {
            Err(bad)
        }
    } else {
        Ok(named_color(t))
    }
}

fn read_component(token: &Vec<char>) -> (r: Option<u32>)
    ensures
        match r {
            Some(v) => component(token@) == Some(v as nat),
            None => component(token@) is None,
        },
{
    let t = trim_chars(token);
    match parse_u32(&t) {
        Some(v) => if v <= 255 {
            Some(v)
        } else {
            None
        },
        None => None,
    }
}

fn push_three_digits(out: &mut Vec<char>, n: u64)
    requires
        n < 1000,
    ensures
        final(out)@ == old(out)@ + three_digits(n as nat),
{
    let ghost start = out@;
    if n < 10 {
        out.push('0');
        out.push('0');
    } else if n < 100 {
        out.push('0');
    }
    push_decimal(out, n);
    assert(out@ =~= start + three_digits(n as nat));
}

/// The CSS colour that a prop's colour setting gives (see `color_of`).
pub fn css_color(value: &str) -> (r: Result<String, String>)
    ensures
        match color_of(value@) {
            Ok(c) => r matches Ok(s) && s@ == c,
            Err(m) => r matches Err(e) && e@ == m,
        },
{
    let v = chars_of(value);
    let t = trim_chars(&v);
    if !contains_char(&t, ',') {
        let name = string_from_chars(&t);
        let color = css_color_name(name.as_str());
        return Ok(color.to_owned());
    }
    let inner = strip_char_exec(&strip_char_exec(&t, '{'), '}');
    let tokens = split_chars(&inner, ',');
    let ghost toks = views(tokens@);
    let mut bad = chars_of("Invalid prop color: ");
    push_all(&mut bad, &v);
    assert(t@.contains(','));
    let mut values: Vec<u32> = Vec::new();
    let mut i: usize = 0;
    while i < tokens.len()
        invariant
            toks == views(tokens@),
            toks == split_on(strip_char(strip_char(trim(value@), '{'), '}'), ','),
            trim(value@).contains(','),
            bad@ == "Invalid prop color: "@ + value@,
            i <= tokens.len(),
            values.len() == i,
            forall|j: int| 0 <= j < i ==> component(#[trigger] toks[j]) == Some(values@[j] as nat),
        decreases tokens.len() - i,
    {
        assert(toks[i as int] == tokens@[i as int]@);
        match read_component(&tokens[i]) {
            Some(x) => {
                values.push(x);
            },
            None => {
                assert(component(toks[i as int]) is None);
                return Err(string_from_chars(&bad));
            },
        }
        i = i + 1;
    }
    assert(!exists|j: int| 0 <= j < toks.len() && #[trigger] component(toks[j]) is None);
    if values.len() == 3 || values.len() == 4 {
        let mut out: Vec<char> = Vec::new();
        if values.len() == 3 {
            push_str(&mut out, "rgb(");
        } else {
            push_str(&mut out, "rgba(");
        }
        push_decimal(&mut out, values[0] as u64);
        out.push(',');
        push_decimal(&mut out, values[1] as u64);
        out.push(',');
        push_decimal(&mut out, values[2] as u64);
        if values.len() == 4 {
            let a = values[3] as u64;
            let t = (2000 * a + 255) / 510;
            out.push(',');
            push_decimal(&mut out, t / 1000);
            out.push('.');
            push_three_digits(&mut out, t % 1000);
        }
        out.push(')');
        proof {
            assert(component(toks[0]) == Some(values@[0] as nat));
            assert(component(toks[1]) == Some(values@[1] as nat));
            assert(component(toks[2]) == Some(values@[2] as nat));
            if values.len() == 4 {
                assert(component(toks[3]) == Some(values@[3] as nat));
            }
            assert(color_of(value@) matches Ok(c) && out@ =~= c);
        }
        Ok(string_from_chars(&out))
    } else {
        Err(string_from_chars(&bad))
    }
}

/// The kinds of prop; a type that is not known keeps its name.
#[derive(Clone, Debug, PartialEq, Eq)]
pub enum PropKind {
    Ball,
    Square,
    Ring,
    Image,
    Unknown(String),
}

} // verus!
