use vstd::prelude::*;
use crate::jml::{push_escaped, xml_escaped};
use crate::text::{
    chars_of, string_from_chars, push_str, push_decimal, decimal, eq_ignore_case,
    eq_ignore_ascii_case, split_on, split_chars, parsed_usize, parse_usize, number_list,
    comma_numbers, is_ws, is_whitespace,
};

verus! {

/// What an event does with a path.
#[derive(Clone, Copy, Debug, PartialEq, Eq)]
pub enum MhnJmlTransitionType {
    Throw,
    Catch,
    SoftCatch,
    GrabCatch,
    Holding,
}

impl MhnJmlTransitionType {
    /// A catch of any kind.
    pub fn is_catch(self) -> (r: bool)
        ensures
            r == (self is Catch || self is SoftCatch || self is GrabCatch),
    {
        match self {
            MhnJmlTransitionType::Catch | MhnJmlTransitionType::SoftCatch
            | MhnJmlTransitionType::GrabCatch => true,
            _ => false,
        }
    }

    /// A throw or a catch of any kind, not a hold.
    pub fn is_throw_or_catch(self) -> (r: bool)
        ensures
            r == !(self is Holding),
    {
        match self {
            MhnJmlTransitionType::Holding => false,
            _ => true,
        }
    }
}

/// What an event does with one path, with the throw's type and modifier for a throw.
#[derive(Clone, Debug, PartialEq)]
pub struct MhnJmlTransition {
    pub transition_type: MhnJmlTransitionType,
    pub path: usize,
    pub throw_type: Option<String>,
    pub throw_mod: Option<String>,
}

/// An optional attribute ` name="value"` with the value escaped.
pub open spec fn optional_attribute(name: Seq<char>, value: Option<String>) -> Seq<char> {
    match value {
        Some(v) => seq![' '] + name + seq!['=', '"'] + xml_escaped(v@) + seq!['"'],
        None => Seq::empty(),
    }
}

/// `path="n"`.
pub open spec fn path_attribute(path: nat) -> Seq<char> {
    "path=\""@ + decimal(path) + seq!['"']
}

/// The JML element of a transition.
pub open spec fn transition_jml(t: MhnJmlTransition) -> Seq<char> {
    match t.transition_type {
        MhnJmlTransitionType::Throw => "<throw "@ + path_attribute(t.path as nat) + optional_attribute(
            "type"@,
            t.throw_type,
        ) + optional_attribute("mod"@, t.throw_mod) + "/>\n"@,
        MhnJmlTransitionType::Catch => "<catch "@ + path_attribute(t.path as nat) + "/>\n"@,
        MhnJmlTransitionType::SoftCatch => "<catch "@ + path_attribute(t.path as nat)
            + " type=\"soft\"/>\n"@,
        MhnJmlTransitionType::GrabCatch => "<catch "@ + path_attribute(t.path as nat)
            + " type=\"grab\"/>\n"@,
        MhnJmlTransitionType::Holding => "<holding "@ + path_attribute(t.path as nat) + "/>\n"@,
    }
}

fn push_optional_attribute(out: &mut Vec<char>, name: &str, value: &Option<String>)
    ensures
        final(out)@ == old(out)@ + optional_attribute(name@, *value),
{
    match value {
        Some(v) => {
            let ghost start = out@;
            out.push(' ');
            push_str(out, name);
            out.push('=');
            out.push('"');
            let chars = chars_of(v.as_str());
            push_escaped(out, &chars);
            out.push('"');
            assert(out@ =~= start + optional_attribute(name@, *value));
        },
        None => {
            assert(out@ =~= old(out)@ + optional_attribute(name@, *value));
        },
    }
}

fn push_path(out: &mut Vec<char>, path: usize)
    ensures
        final(out)@ == old(out)@ + path_attribute(path as nat),
{
    let ghost start = out@;
    push_str(out, "path=\"");
    push_decimal(out, path as u64);
    out.push('"');
    assert(out@ =~= start + path_attribute(path as nat));
}

impl MhnJmlTransition {
    /// The transition as a JML element.
    pub fn to_jml(&self) -> (r: String)
        ensures
            r@ == transition_jml(*self),
    {
        let mut out: Vec<char> = Vec::new();
        match self.transition_type {
            MhnJmlTransitionType::Throw => {
                push_str(&mut out, "<throw ");
                push_path(&mut out, self.path);
                push_optional_attribute(&mut out, "type", &self.throw_type);
                push_optional_attribute(&mut out, "mod", &self.throw_mod);
                push_str(&mut out, "/>\n");
            },
            MhnJmlTransitionType::Catch => {
                push_str(&mut out, "<catch ");
                push_path(&mut out, self.path);
                push_str(&mut out, "/>\n");
            },
            MhnJmlTransitionType::SoftCatch => {
                push_str(&mut out, "<catch ");
                push_path(&mut out, self.path);
                push_str(&mut out, " type=\"soft\"/>\n");
            },
            MhnJmlTransitionType::GrabCatch => {
                push_str(&mut out, "<catch ");
                push_path(&mut out, self.path);
                push_str(&mut out, " type=\"grab\"/>\n");
            },
            MhnJmlTransitionType::Holding => {
                push_str(&mut out, "<holding ");
                push_path(&mut out, self.path);
                push_str(&mut out, "/>\n");
            },
        }
        assert(out@ =~= transition_jml(*self));
        string_from_chars(&out)
    }
}

/// A prop: its type (`ball`, `ring`, `image`, ...) and its modifier.
#[derive(Clone, Debug, PartialEq, Eq)]
pub struct MhnJmlProp {
    pub prop_type: String,
    pub modifier: Option<String>,
}

/// The JML element of a prop.
pub open spec fn prop_jml(p: MhnJmlProp) -> Seq<char> {
    "<prop type=\""@ + xml_escaped(p.prop_type@) + seq!['"'] + optional_attribute(
        "mod"@,
        p.modifier,
    ) + "/>\n"@
}

impl MhnJmlProp {
    pub fn new(prop_type: String, modifier: Option<String>) -> (r: Self)
        ensures
            r.prop_type == prop_type,
            r.modifier == modifier,
    {
        Self { prop_type, modifier }
    }

    /// Every prop but an image can be coloured.
    pub fn is_colorable(&self) -> (r: bool)
        ensures
            r == !eq_ignore_case(self.prop_type@, "image"@),
    {
        let t = chars_of(self.prop_type.as_str());
        let image = chars_of("image");
        !eq_ignore_ascii_case(&t, &image)
    }

    /// The prop as a JML element.
    pub fn to_jml(&self) -> (r: String)
        ensures
            r@ == prop_jml(*self),
    {
        let mut out: Vec<char> = Vec::new();
        push_str(&mut out, "<prop type=\"");
        let t = chars_of(self.prop_type.as_str());
        push_escaped(&mut out, &t);
        out.push('"');
        push_optional_attribute(&mut out, "mod", &self.modifier);
        push_str(&mut out, "/>\n");
        assert(out@ =~= prop_jml(*self));
        string_from_chars(&out)
    }
}

} // verus!

verus! {

/// A hand written `juggler:hand`: the juggler number (1 where it is missing, unreadable or
/// 0) and the hand, 1 for `left` in any case, 0 otherwise.
pub open spec fn hand_reference(source: Seq<char>) -> (usize, usize) {
    let parts = split_on(source, ':');
    let juggler: usize = match parsed_usize(parts[0]) {
        Some(j) => if j >= 1 {
            j
        } else {
            1
        },
        None => 1,
    };
    let name = if parts.len() >= 2 {
        parts[1]
    } else {
        "right"@
    };
    (juggler, if eq_ignore_case(name, "left"@) {
        1
    } else {
        0
    })
}

pub fn parse_hand(source: &str) -> (r: Result<(usize, usize), String>)
    ensures
        r == Ok::<(usize, usize), String>(hand_reference(source@)),
{
    let text = chars_of(source);
    let parts = split_chars(&text, ':');
    proof {
        crate::text::lemma_split_on_len(text@, ':');
    }
    assert(views_at(parts@, 0) == split_on(source@, ':')[0]);
    let juggler: usize = match parse_usize(&parts[0]) {
        Some(j) => if j >= 1 {
            j
        } else {
            1
        },
        None => 1,
    };
    let hand = if parts.len() >= 2 {
        assert(views_at(parts@, 1) == split_on(source@, ':')[1]);
        let left = chars_of("left");
        if eq_ignore_ascii_case(&parts[1], &left) {
            1
        } else {
            0
        }
    } else {
        proof {
            reveal_strlit("right");
            reveal_strlit("left");
        }
        0
    };
    Ok((juggler, hand))
}

pub open spec fn views_at(v: Seq<Vec<char>>, i: int) -> Seq<char> {
    v[i]@
}

/// The configuration with a line break after each `;`, the whitespace after it dropped.
pub open spec fn config_lines(s: Seq<char>, i: int) -> Seq<char>
    decreases s.len() - i,
{
    if i < 0 || i >= s.len() {
        Seq::empty()
    } else if s[i] == ';' {
        proof {
            lemma_skip_space(s, i + 1);
        }
        seq![';', '\n'] + config_lines(s, skip_space(s, i + 1))
    } else {
        seq![s[i]] + config_lines(s, i + 1)
    }
}

/// The first position from `i` on that does not hold whitespace.
pub open spec fn skip_space(s: Seq<char>, i: int) -> int
    decreases s.len() - i,
{
    if 0 <= i < s.len() && is_ws(s[i]) {
        skip_space(s, i + 1)
    } else {
        i
    }
}

pub proof fn lemma_skip_space(s: Seq<char>, i: int)
    requires
        0 <= i <= s.len(),
    ensures
        i <= skip_space(s, i) <= s.len(),
    decreases s.len() - i,
{
    if i < s.len() && is_ws(s[i]) {
        lemma_skip_space(s, i + 1);
    }
}

pub fn format_base_pattern_config(config: &str) -> (r: String)
    ensures
        r@ == config_lines(config@, 0),
{
    let s = chars_of(config);
    let mut out: Vec<char> = Vec::new();
    let mut i: usize = 0;
    while i < s.len()
        invariant
            i <= s.len(),
            s@ == config@,
            out@ + config_lines(s@, i as int) == config_lines(s@, 0),
        decreases s.len() - i,
    {
        let c = s[i];
        out.push(c);
        if c == ';' {
            i = i + 1;
            proof {
                lemma_skip_space(s@, i as int);
            }
            let ghost from = i as int;
            while i < s.len() && is_whitespace(s[i])
                invariant
                    from <= i <= s.len(),
                    skip_space(s@, from) == skip_space(s@, i as int),
                decreases s.len() - i,
            {
                i = i + 1;
            }
            out.push('\n');
            assert(out@ + config_lines(s@, i as int) =~= config_lines(s@, 0));
        } else {
            i = i + 1;
            assert(out@ + config_lines(s@, i as int) =~= config_lines(s@, 0));
        }
    }
    assert(out@ =~= config_lines(s@, 0));
    string_from_chars(&out)
}

/// The name of a hand index: 1 is `left`, every other index `right`.
pub fn hand_name(hand: usize) -> (r: &'static str)
    ensures
        r@ == (if hand == 1 {
            "left"@
        } else {
            "right"@
        }),
{
    if hand == 1 {
        "left"
    } else {
        "right"
    }
}

/// The prop of each path as a pattern lists them: the numbers of the comma-separated list,
/// no more than the number of paths where that is not 0; none without a list.
pub fn parse_prop_assignment(source: Option<&str>, number_of_paths: usize) -> (r: Vec<usize>)
    ensures
        match source {
            None => r@.len() == 0,
            Some(text) => {
                let all = number_list(split_on(text@, ','));
                r@ == if number_of_paths > 0 && all.len() > number_of_paths {
                    all.take(number_of_paths as int)
                } else {
                    all
                }
            },
        },
{
    match source {
        None => Vec::new(),
        Some(text) => {
            let chars = chars_of(text);
            let mut all = comma_numbers(&chars);
            if number_of_paths > 0 && all.len() > number_of_paths {
                all.truncate(number_of_paths);
            }
            all
        },
    }
}

} // verus!
