use vstd::prelude::*;
use crate::text::{
    trim, trim_chars, slice_of, chars_of, eq_ignore_case, eq_ignore_ascii_case, push_all,
    push_str, string_from_chars, index_of_char, index_from, find_char, split_on, split_chars, views,
};

verus! {

/// A list of parameters as (name, value) pairs, in the order they were first added.
pub open spec fn no_entries() -> Seq<(Seq<char>, Seq<char>)> {
    Seq::empty()
}

/// The last position whose name equals `name` ignoring ASCII case, or -1.
pub open spec fn last_match(e: Seq<(Seq<char>, Seq<char>)>, name: Seq<char>) -> int
    decreases e.len(),
{
    if e.len() == 0 {
        -1
    } else if eq_ignore_case(name, e.last().0) {
        e.len() - 1
    } else {
        last_match(e.drop_last(), name)
    }
}

/// The value of the parameter `name` (names compared ignoring ASCII case).
pub open spec fn lookup(e: Seq<(Seq<char>, Seq<char>)>, name: Seq<char>) -> Option<Seq<char>> {
    let i = last_match(e, name);
    if i < 0 {
        None
    } else {
        Some(e[i].1)
    }
}

/// The list after setting `name` to `value`: an existing parameter keeps its name and
/// place and takes the new value; a new one goes at the end.
pub open spec fn with_parameter(
    e: Seq<(Seq<char>, Seq<char>)>,
    name: Seq<char>,
    value: Seq<char>,
) -> Seq<(Seq<char>, Seq<char>)> {
    let i = last_match(e, name);
    if i < 0 {
        e.push((name, value))
    } else {
        e.update(i, (e[i].0, value))
    }
}

/// The list without the parameter `name`.
pub open spec fn without_parameter(e: Seq<(Seq<char>, Seq<char>)>, name: Seq<char>) -> Seq<
    (Seq<char>, Seq<char>),
> {
    let i = last_match(e, name);
    if i < 0 {
        e
    } else {
        e.remove(i)
    }
}

/// No two names of the list are equal ignoring ASCII case.
pub open spec fn distinct_names(e: Seq<(Seq<char>, Seq<char>)>) -> bool {
    forall|i: int, j: int|
        0 <= i < e.len() && 0 <= j < e.len() && i != j ==> !eq_ignore_case(
            #[trigger] e[i].0,
            #[trigger] e[j].0,
        )
}

/// The text with its line breaks (`\n` and `\r`) taken out.
pub open spec fn without_line_breaks(s: Seq<char>) -> Seq<char>
    decreases s.len(),
{
    if s.len() == 0 {
        s
    } else {
        let r = without_line_breaks(s.drop_last());
        if s.last() == '\n' || s.last() == '\r' {
            r
        } else {
            r.push(s.last())
        }
    }
}

/// The error for a token that names a parameter without giving it a value.
pub open spec fn missing_value_message(name: Seq<char>) -> Seq<char> {
    "Parameter without a value: "@ + name
}

/// Reads one `;`-separated token into the list: `name=value` sets a parameter (when the
/// trimmed name is not empty), a token without `=` (or starting with it) is an error unless
/// it is blank.
pub open spec fn read_token(e: Seq<(Seq<char>, Seq<char>)>, tok: Seq<char>) -> (
    Seq<(Seq<char>, Seq<char>)>,
    Option<Seq<char>>,
) {
    let eq = index_of_char(tok, '=');
    if eq > 0 {
        let name = trim(tok.subrange(0, eq));
        let value = trim(tok.subrange(eq + 1, tok.len() as int));
        if name.len() > 0 {
            (with_parameter(e, name, value), None)
        } else {
            (e, None)
        }
    } else {
        let name = trim(tok);
        if name.len() > 0 {
            (e, Some(missing_value_message(name)))
        } else {
            (e, None)
        }
    }
}

/// Reads the tokens in turn, stopping at the first error; gives the list as it stands then
/// and the error, if any.
pub open spec fn read_tokens(e: Seq<(Seq<char>, Seq<char>)>, toks: Seq<Seq<char>>) -> (
    Seq<(Seq<char>, Seq<char>)>,
    Option<Seq<char>>,
)
    decreases toks.len(),
{
    if toks.len() == 0 {
        (e, None)
    } else {
        let step = read_token(e, toks[0]);
        if step.1 is Some {
            step
        } else {
            read_tokens(step.0, toks.drop_first())
        }
    }
}

/// What reading the source `s` into the list `e` gives.
pub open spec fn read_source(e: Seq<(Seq<char>, Seq<char>)>, s: Seq<char>) -> (
    Seq<(Seq<char>, Seq<char>)>,
    Option<Seq<char>>,
) {
    read_tokens(e, split_on(without_line_breaks(s), ';'))
}

/// `name` in double quotes.
pub open spec fn quoted(name: Seq<char>) -> Seq<char> {
    seq!['"'] + name + seq!['"']
}

/// The quoted names of the list, separated by `, `.
pub open spec fn quoted_names(e: Seq<(Seq<char>, Seq<char>)>) -> Seq<char>
    decreases e.len(),
{
    if e.len() == 0 {
        Seq::empty()
    } else if e.len() == 1 {
        quoted(e[0].0)
    } else {
        quoted_names(e.drop_last()) + seq![',', ' '] + quoted(e.last().0)
    }
}

/// The error for parameters that nothing used.
pub open spec fn unused_message(e: Seq<(Seq<char>, Seq<char>)>) -> Seq<char> {
    if e.len() == 1 {
        "Unused parameter: "@ + quoted(e[0].0)
    } else {
        "Unused parameters: "@ + quoted_names(e)
    }
}

/// `name=value`.
pub open spec fn entry_text(p: (Seq<char>, Seq<char>)) -> Seq<char> {
    p.0 + seq!['='] + p.1
}

/// The list written as `name=value` pairs separated by `;`.
pub open spec fn list_text(e: Seq<(Seq<char>, Seq<char>)>) -> Seq<char>
    decreases e.len(),
{
    if e.len() == 0 {
        Seq::empty()
    } else if e.len() == 1 {
        entry_text(e[0])
    } else {
        list_text(e.drop_last()) + seq![';'] + entry_text(e.last())
    }
}

/// Named parameters, such as those of a pattern (`pattern=3;bps=5`). Names are compared
/// ignoring ASCII case.
#[derive(Clone, Debug, PartialEq, Eq)]
pub struct ParameterList {
    names: Vec<String>,
    values: Vec<String>,
}

impl View for ParameterList {
    type V = Seq<(Seq<char>, Seq<char>)>;

    closed spec fn view(&self) -> Seq<(Seq<char>, Seq<char>)> {
        Seq::new(self.names.len() as nat, |i: int| (self.names[i]@, self.values[i]@))
    }
}

proof fn lemma_last_match_take(e: Seq<(Seq<char>, Seq<char>)>, name: Seq<char>, i: int)
    requires
        0 <= i < e.len(),
    ensures
        last_match(e.take(i + 1), name) == (if eq_ignore_case(name, e[i].0) {
            i
        } else {
            last_match(e.take(i), name)
        }),
{
    assert(e.take(i + 1).drop_last() =~= e.take(i));
}

proof fn lemma_last_match_range(e: Seq<(Seq<char>, Seq<char>)>, name: Seq<char>)
    ensures
        -1 <= last_match(e, name) < e.len(),
        last_match(e, name) >= 0 ==> eq_ignore_case(name, e[last_match(e, name)].0),
        forall|j: int|
            last_match(e, name) < j < e.len() ==> !eq_ignore_case(name, #[trigger] e[j].0),
    decreases e.len(),
{
    if e.len() > 0 && !eq_ignore_case(name, e.last().0) {
        lemma_last_match_range(e.drop_last(), name);
        assert forall|j: int| last_match(e, name) < j < e.len() implies !eq_ignore_case(
            name,
            #[trigger] e[j].0,
        ) by {
            if j < e.len() - 1 {
                assert(e.drop_last()[j] == e[j]);
            }
        }
    }
}

/// `last_match` looks at the names only.
proof fn lemma_last_match_names(
    a: Seq<(Seq<char>, Seq<char>)>,
    b: Seq<(Seq<char>, Seq<char>)>,
    name: Seq<char>,
)
    requires
        a.len() == b.len(),
        forall|j: int| 0 <= j < a.len() ==> #[trigger] a[j].0 == b[j].0,
    ensures
        last_match(a, name) == last_match(b, name),
    decreases a.len(),
{
    if a.len() > 0 {
        assert(a.last().0 == b.last().0);
        lemma_last_match_names(a.drop_last(), b.drop_last(), name);
    }
}

proof fn lemma_eq_ignore_case_refl(a: Seq<char>)
    ensures
        eq_ignore_case(a, a),
{
}

proof fn lemma_eq_ignore_case_sym(a: Seq<char>, b: Seq<char>)
    ensures
        eq_ignore_case(a, b) == eq_ignore_case(b, a),
{
}

proof fn lemma_eq_ignore_case_trans(a: Seq<char>, b: Seq<char>, c: Seq<char>)
    requires
        eq_ignore_case(a, b),
        eq_ignore_case(b, c),
    ensures
        eq_ignore_case(a, c),
{
    assert forall|i: int| 0 <= i < a.len() implies crate::text::lower(#[trigger] a[i])
        == crate::text::lower(c[i]) by {
        assert(crate::text::lower(a[i]) == crate::text::lower(b[i]));
    }
}

/// Reading a parameter back after setting it gives the value that was set.
pub proof fn lemma_get_after_add(e: Seq<(Seq<char>, Seq<char>)>, name: Seq<char>, value: Seq<char>)
    ensures
        lookup(with_parameter(e, name, value), name) == Some(value),
{
    let i = last_match(e, name);
    lemma_last_match_range(e, name);
    if i < 0 {
        lemma_eq_ignore_case_refl(name);
        assert(e.push((name, value)).drop_last() =~= e);
    } else {
        let u = e.update(i, (e[i].0, value));
        lemma_last_match_names(u, e, name);
    }
}

/// Setting a parameter adds one to the count when the name is new, and keeps the count
/// when it replaces a value.
pub proof fn lemma_add_count(e: Seq<(Seq<char>, Seq<char>)>, name: Seq<char>, value: Seq<char>)
    ensures
        lookup(e, name) is None ==> with_parameter(e, name, value).len() == e.len() + 1,
        lookup(e, name) is Some ==> with_parameter(e, name, value).len() == e.len(),
{
    lemma_last_match_range(e, name);
}

/// Setting a parameter that was not there and then removing it gives back the list.
pub proof fn lemma_remove_after_add(
    e: Seq<(Seq<char>, Seq<char>)>,
    name: Seq<char>,
    value: Seq<char>,
)
    requires
        lookup(e, name) is None,
    ensures
        without_parameter(with_parameter(e, name, value), name) == e,
{
    lemma_last_match_range(e, name);
    lemma_eq_ignore_case_refl(name);
    let p = e.push((name, value));
    assert(p.drop_last() =~= e);
    assert(last_match(p, name) == e.len());
    assert(p.remove(e.len() as int) =~= e);
}

/// Setting a parameter keeps the names distinct (ignoring ASCII case).
pub proof fn lemma_add_keeps_distinct(
    e: Seq<(Seq<char>, Seq<char>)>,
    name: Seq<char>,
    value: Seq<char>,
)
    requires
        distinct_names(e),
    ensures
        distinct_names(with_parameter(e, name, value)),
{
    lemma_last_match_range(e, name);
    let i = last_match(e, name);
    let r = with_parameter(e, name, value);
    if i < 0 {
        assert forall|a: int, b: int|
            0 <= a < r.len() && 0 <= b < r.len() && a != b implies !eq_ignore_case(
            #[trigger] r[a].0,
            #[trigger] r[b].0,
        ) by {
            if a == e.len() {
                assert(r[b] == e[b]);
                lemma_eq_ignore_case_sym(name, e[b].0);
            } else if b == e.len() {
                assert(r[a] == e[a]);
            } else {
                assert(r[a] == e[a] && r[b] == e[b]);
            }
        }
    } else {
        assert forall|a: int, b: int|
            0 <= a < r.len() && 0 <= b < r.len() && a != b implies !eq_ignore_case(
            #[trigger] r[a].0,
            #[trigger] r[b].0,
        ) by {
            assert(r[a].0 == e[a].0 && r[b].0 == e[b].0);
        }
    }
}

/// Removing a parameter keeps the names distinct, and in a list of distinct names the
/// parameter is then gone.
pub proof fn lemma_remove_clears(e: Seq<(Seq<char>, Seq<char>)>, name: Seq<char>)
    requires
        distinct_names(e),
    ensures
        distinct_names(without_parameter(e, name)),
        lookup(without_parameter(e, name), name) is None,
{
    lemma_last_match_range(e, name);
    let i = last_match(e, name);
    let r = without_parameter(e, name);
    if i >= 0 {
        assert forall|a: int, b: int|
            0 <= a < r.len() && 0 <= b < r.len() && a != b implies !eq_ignore_case(
            #[trigger] r[a].0,
            #[trigger] r[b].0,
        ) by {
            let a2 = if a < i { a } else { a + 1 };
            let b2 = if b < i { b } else { b + 1 };
            assert(r[a] == e[a2] && r[b] == e[b2]);
        }
        lemma_last_match_range(r, name);
        let k = last_match(r, name);
        if k >= 0 {
            let k2 = if k < i { k } else { k + 1 };
            assert(r[k] == e[k2]);
            lemma_eq_ignore_case_sym(name, e[k2].0);
            lemma_eq_ignore_case_trans(e[k2].0, name, e[i].0);
            assert(!eq_ignore_case(e[k2].0, e[i].0));
        }
    }
}

proof fn lemma_first_equals(tok: Seq<char>, j: int, i: int)
    requires
        0 <= j <= i < tok.len(),
        tok[i] == '=',
        forall|k: int| 0 <= k < i ==> tok[k] != '=',
    ensures
        index_from(tok, '=', j) == i,
    decreases i - j,
{
    if j < i {
        lemma_first_equals(tok, j + 1, i);
    }
}

/// A token is split at its first `=`: the trimmed text before it names the parameter, and
/// the trimmed text after it, later `=` included, is the value; a blank name sets nothing.
pub proof fn lemma_token_splits_at_first_equals(e: Seq<(Seq<char>, Seq<char>)>, tok: Seq<char>, i: int)
    requires
        0 < i < tok.len(),
        tok[i] == '=',
        forall|k: int| 0 <= k < i ==> tok[k] != '=',
    ensures
        read_token(e, tok).1 is None,
        trim(tok.subrange(0, i)).len() > 0 ==> read_token(e, tok).0 == with_parameter(
            e,
            trim(tok.subrange(0, i)),
            trim(tok.subrange(i + 1, tok.len() as int)),
        ),
        trim(tok.subrange(0, i)).len() > 0 ==> lookup(read_token(e, tok).0, trim(tok.subrange(0, i)))
            == Some(trim(tok.subrange(i + 1, tok.len() as int))),
        trim(tok.subrange(0, i)).len() == 0 ==> read_token(e, tok).0 == e,
{
    lemma_first_equals(tok, 0, i);
    lemma_get_after_add(e, trim(tok.subrange(0, i)), trim(tok.subrange(i + 1, tok.len() as int)));
}

proof fn lemma_split_without_delimiter(s: Seq<char>, d: char)
    requires
        !s.contains(d),
    ensures
        split_on(s, d) == seq![s],
    decreases s.len(),
{
    if s.len() > 0 {
        assert(!s.drop_last().contains(d)) by {
            if s.drop_last().contains(d) {
                let k = choose|k: int| 0 <= k < s.drop_last().len() && s.drop_last()[k] == d;
                assert(s[k] == d);
            }
        }
        lemma_split_without_delimiter(s.drop_last(), d);
        assert(s.last() != d) by {
            assert(s[s.len() - 1] == s.last());
        }
        let r = split_on(s.drop_last(), d);
        assert(r == seq![s.drop_last()]);
        assert(r.len() == 1);
        assert(r.last() == s.drop_last());
        assert(split_on(s, d) == r.update(r.len() - 1, r.last().push(s.last())));
        assert(s.drop_last().push(s.last()) =~= s);
        assert(seq![s.drop_last()].update(0, s.drop_last().push(s.last())) =~= seq![s]);
    } else {
        assert(s =~= Seq::<char>::empty());
    }
}

proof fn lemma_no_line_breaks(s: Seq<char>)
    requires
        !s.contains('\n'),
        !s.contains('\r'),
    ensures
        without_line_breaks(s) == s,
    decreases s.len(),
{
    if s.len() > 0 {
        assert(!s.drop_last().contains('\n') && !s.drop_last().contains('\r')) by {
            if s.drop_last().contains('\n') {
                let k = choose|k: int| 0 <= k < s.drop_last().len() && s.drop_last()[k] == '\n';
                assert(s[k] == '\n');
            }
            if s.drop_last().contains('\r') {
                let k = choose|k: int| 0 <= k < s.drop_last().len() && s.drop_last()[k] == '\r';
                assert(s[k] == '\r');
            }
        }
        lemma_no_line_breaks(s.drop_last());
        assert(s[s.len() - 1] == s.last());
        assert(s.drop_last().push(s.last()) =~= s);
    }
}

/// Reading a single `name=value` setting (no `;`, no line break) into an empty list gives
/// the one parameter named by the text before the first `=`, with the rest as its value.
pub proof fn lemma_single_setting(s: Seq<char>, i: int)
    requires
        0 < i < s.len(),
        s[i] == '=',
        forall|k: int| 0 <= k < i ==> s[k] != '=',
        !s.contains(';'),
        !s.contains('\n'),
        !s.contains('\r'),
        trim(s.subrange(0, i)).len() > 0,
    ensures
        read_source(no_entries(), s).1 is None,
        read_source(no_entries(), s).0 == seq![(trim(s.subrange(0, i)), trim(s.subrange(i + 1, s.len() as int)))],
{
    lemma_no_line_breaks(s);
    lemma_split_without_delimiter(s, ';');
    lemma_token_splits_at_first_equals(no_entries(), s, i);
    let toks = seq![s];
    assert(split_on(without_line_breaks(s), ';') == toks);
    assert(toks[0] == s);
    assert(toks.drop_first() =~= Seq::<Seq<char>>::empty());
    let step = read_token(no_entries(), s);
    assert(read_tokens(step.0, Seq::<Seq<char>>::empty()) == (step.0, Option::<Seq<char>>::None));
    assert(read_tokens(no_entries(), toks) == read_tokens(step.0, toks.drop_first()));
    assert(last_match(no_entries(), trim(s.subrange(0, i))) == -1);
    assert(no_entries().push((trim(s.subrange(0, i)), trim(s.subrange(i + 1, s.len() as int))))
        =~= seq![(trim(s.subrange(0, i)), trim(s.subrange(i + 1, s.len() as int)))]);
}

proof fn lemma_read_tokens_skip(e: Seq<(Seq<char>, Seq<char>)>, toks: Seq<Seq<char>>, i: int)
    requires
        0 <= i < toks.len(),
        read_token(e, toks[i]).1 is None,
    ensures
        read_tokens(e, toks.skip(i)) == read_tokens(read_token(e, toks[i]).0, toks.skip(i + 1)),
{
    assert(toks.skip(i)[0] == toks[i]);
    assert(toks.skip(i).drop_first() =~= toks.skip(i + 1));
}

proof fn lemma_list_text_take(e: Seq<(Seq<char>, Seq<char>)>, i: int)
    requires
        0 <= i < e.len(),
    ensures
        list_text(e.take(i + 1)) == if i == 0 {
            entry_text(e[0])
        } else {
            list_text(e.take(i)) + seq![';'] + entry_text(e[i])
        },
{
    assert(e.take(i + 1).drop_last() =~= e.take(i));
    assert(e.take(i + 1).last() == e[i]);
}

proof fn lemma_quoted_names_take(e: Seq<(Seq<char>, Seq<char>)>, i: int)
    requires
        0 <= i < e.len(),
    ensures
        quoted_names(e.take(i + 1)) == if i == 0 {
            quoted(e[0].0)
        } else {
            quoted_names(e.take(i)) + seq![',', ' '] + quoted(e[i].0)
        },
{
    assert(e.take(i + 1).drop_last() =~= e.take(i));
    assert(e.take(i + 1).last() == e[i]);
}

/// The characters of the text without `\n` and `\r`.
fn strip_line_breaks(v: &Vec<char>) -> (r: Vec<char>)
    ensures
        r@ == without_line_breaks(v@),
{
    let mut r: Vec<char> = Vec::new();
    let mut i: usize = 0;
    while i < v.len()
        invariant
            i <= v.len(),
            r@ == without_line_breaks(v@.take(i as int)),
        decreases v.len() - i,
    {
        assert(v@.take(i as int + 1).drop_last() =~= v@.take(i as int));
        if v[i] != '\n' && v[i] != '\r' {
            r.push(v[i]);
        }
        i = i + 1;
    }
    assert(v@.take(v.len() as int) =~= v@);
    r
}

impl ParameterList {
    /// The lists that the operations build and accept: one value per name.
    pub closed spec fn well_formed(&self) -> bool {
        self.names.len() == self.values.len()
    }

    /// An empty list.
    pub fn new() -> (r: Self)
        ensures
            r.well_formed(),
            r@ == no_entries(),
    {
        let r = Self { names: Vec::new(), values: Vec::new() };
        assert(r@ =~= no_entries());
        r
    }

    /// Reads a list from `name=value` pairs separated by `;`; no source gives an empty list.
    pub fn parse(source: Option<&str>) -> (r: Result<Self, String>)
        ensures
            match source {
                None => r matches Ok(l) && l.well_formed() && l@ == no_entries(),
                Some(s) => {
                    let (e, err) = read_source(no_entries(), s@);
                    &&& err is None <==> r is Ok
                    &&& r matches Ok(l) ==> l.well_formed() && l@ == e
                    &&& r matches Err(m) ==> err == Some(m@)
                },
            },
    {
        let mut list = Self::new();
        let res = list.read_parameters(source);
        if res.is_err() {
            return Err(res.unwrap_err());
        }
        Ok(list)
    }

    /// How many parameters there are.
    pub fn number_of_parameters(&self) -> (r: usize)
        requires
            self.well_formed(),
        ensures
            r == self@.len(),
    {
        self.names.len()
    }

    /// The last position whose name equals `name` ignoring ASCII case.
    fn find_name(&self, name: &Vec<char>) -> (r: Option<usize>)
        requires
            self.well_formed(),
        ensures
            r matches Some(i) ==> i == last_match(self@, name@) && i < self@.len(),
            r is None ==> last_match(self@, name@) == -1,
    {
        let ghost e = self@;
        let mut index: usize = self.names.len();
        assert(e.take(index as int) =~= e);
        while index > 0
            invariant
                e == self@,
                self.well_formed(),
                index <= e.len(),
                last_match(e, name@) == last_match(e.take(index as int), name@),
            decreases index,
        {
            index = index - 1;
            let candidate = chars_of(self.names[index].as_str());
            proof {
                lemma_last_match_take(e, name@, index as int);
                assert(candidate@ == e[index as int].0);
            }
            if eq_ignore_ascii_case(name, &candidate) {
                return Some(index);
            }
        }
        None
    }

    fn set_chars(&mut self, name: &Vec<char>, value: &Vec<char>) -> (r: bool)
        requires
            old(self).well_formed(),
        ensures
            final(self).well_formed(),
            final(self)@ == with_parameter(old(self)@, name@, value@),
            r == (last_match(old(self)@, name@) >= 0),
    {
        let ghost e = self@;
        match self.find_name(name) {
            Some(index) => {
                let v = string_from_chars(value);
                self.values.set(index, v);
                assert(self@ =~= with_parameter(e, name@, value@));
                true
            },
            None => {
                let n = string_from_chars(name);
                let v = string_from_chars(value);
                self.names.push(n);
                self.values.push(v);
                assert(self@ =~= with_parameter(e, name@, value@));
                false
            },
        }
    }

    /// Sets the parameter `name` to `value`; tells whether a parameter of that name (ignoring
    /// ASCII case) was already there, in which case it keeps its name and takes the value.
    pub fn add_parameter(&mut self, name: &str, value: &str) -> (r: bool)
        requires
            old(self).well_formed(),
        ensures
            final(self).well_formed(),
            final(self)@ == with_parameter(old(self)@, name@, value@),
            r == lookup(old(self)@, name@) is Some,
    {
        let n = chars_of(name);
        let v = chars_of(value);
        self.set_chars(&n, &v)
    }

    /// The value of the parameter `name`, names compared ignoring ASCII case.
    pub fn get_parameter(&self, name: &str) -> (r: Option<&str>)
        requires
            self.well_formed(),
        ensures
            match r {
                Some(s) => lookup(self@, name@) == Some(s@),
                None => lookup(self@, name@) is None,
            },
    {
        let n = chars_of(name);
        match self.find_name(&n) {
            Some(index) => Some(self.values[index].as_str()),
            None => None,
        }
    }

    /// Takes the parameter `name` out of the list and gives its value.
    pub fn remove_parameter(&mut self, name: &str) -> (r: Option<String>)
        requires
            old(self).well_formed(),
        ensures
            final(self).well_formed(),
            final(self)@ == without_parameter(old(self)@, name@),
            match r {
                Some(s) => lookup(old(self)@, name@) == Some(s@),
                None => lookup(old(self)@, name@) is None,
            },
    {
        let ghost e = self@;
        let n = chars_of(name);
        match self.find_name(&n) {
            Some(index) => {
                self.names.remove(index);
                let v = self.values.remove(index);
                assert(self@ =~= without_parameter(e, name@));
                Some(v)
            },
            None => None,
        }
    }

    /// The name at `index`, if there is one.
    pub fn get_parameter_name(&self, index: usize) -> (r: Option<&str>)
        requires
            self.well_formed(),
        ensures
            index < self@.len() ==> (r matches Some(s) && s@ == self@[index as int].0),
            index >= self@.len() ==> r is None,
    {
        if index < self.names.len() {
            Some(self.names[index].as_str())
        } else {
            None
        }
    }

    /// The value at `index`, if there is one.
    pub fn get_parameter_value(&self, index: usize) -> (r: Option<&str>)
        requires
            self.well_formed(),
        ensures
            index < self@.len() ==> (r matches Some(s) && s@ == self@[index as int].1),
            index >= self@.len() ==> r is None,
    {
        if index < self.values.len() {
            Some(self.values[index].as_str())
        } else {
            None
        }
    }

    /// The (name, value) pairs in order.
    pub fn iter(&self) -> (r: Vec<(String, String)>)
        requires
            self.well_formed(),
        ensures
            r.len() == self@.len(),
            forall|i: int|
                0 <= i < r.len() ==> (#[trigger] r@[i].0@, r@[i].1@) == self@[i],
    {
        let mut r: Vec<(String, String)> = Vec::new();
        let mut i: usize = 0;
        while i < self.names.len()
            invariant
                self.well_formed(),
                i <= self@.len(),
                r.len() == i,
                forall|j: int| 0 <= j < i ==> (#[trigger] r@[j].0@, r@[j].1@) == self@[j],
            decreases self.names.len() - i,
        {
            let n = self.names[i].clone();
            let v = self.values[i].clone();
            r.push((n, v));
            i = i + 1;
        }
        r
    }

    fn read_one(&mut self, tok: &Vec<char>) -> (r: Option<Vec<char>>)
        requires
            old(self).well_formed(),
        ensures
            final(self).well_formed(),
            final(self)@ == read_token(old(self)@, tok@).0,
            r is None <==> read_token(old(self)@, tok@).1 is None,
            r matches Some(m) ==> read_token(old(self)@, tok@).1 == Some(m@),
    {
        let found = find_char(tok, '=');
        let eq: usize = match found {
            Some(i) => i,
            None => 0,
        };
        if eq > 0 {
            {
                let raw_name = slice_of(tok, 0, eq);
                let raw_value = slice_of(tok, eq + 1, tok.len());
                let name = trim_chars(&raw_name);
                let value = trim_chars(&raw_value);
                if name.len() > 0 {
                    self.set_chars(&name, &value);
                }
                None
            }
        } else {
            {
                let name = trim_chars(tok);
                if name.len() > 0 {
                    let mut msg = chars_of("Parameter without a value: ");
                    push_all(&mut msg, &name);
                    Some(msg)
                } else {
                    None
                }
            }
        }
    }

    /// Reads `name=value` pairs separated by `;` (line breaks are ignored) into the list,
    /// stopping at the first token that has a name but no value.
    pub fn read_parameters(&mut self, source: Option<&str>) -> (r: Result<(), String>)
        requires
            old(self).well_formed(),
        ensures
            final(self).well_formed(),
            match source {
                None => r is Ok && final(self)@ == old(self)@,
                Some(s) => {
                    let (e, err) = read_source(old(self)@, s@);
                    &&& final(self)@ == e
                    &&& err is None <==> r is Ok
                    &&& r matches Err(m) ==> err == Some(m@)
                },
            },
    {
        if source.is_none() {
            return Ok(());
        }
        let s = source.unwrap();
        let chars = chars_of(s);
        let clean = strip_line_breaks(&chars);
        let tokens = split_chars(&clean, ';');
        let ghost toks = views(tokens@);
        let ghost e0 = self@;
        assert(toks.skip(0) =~= toks);
        let mut i: usize = 0;
        while i < tokens.len()
            invariant
                self.well_formed(),
                toks == views(tokens@),
                toks == split_on(without_line_breaks(s@), ';'),
                i <= tokens.len(),
                e0 == old(self)@,
                source == Some(s),
                read_source(e0, s@) == read_tokens(self@, toks.skip(i as int)),
            decreases tokens.len() - i,
        {
            let ghost before = self@;
            assert(tokens@[i as int]@ == toks[i as int]);
            let res = self.read_one(&tokens[i]);
            match res {
                Some(msg) => {
                    proof {
                        assert(toks.skip(i as int)[0] == toks[i as int]);
                        assert(read_tokens(before, toks.skip(i as int)) == read_token(
                            before,
                            toks[i as int],
                        ));
                    }
                    let text = string_from_chars(&msg);
                    return Err(text);
                },
                None => {
                    proof {
                        lemma_read_tokens_skip(before, toks, i as int);
                    }
                },
            }
            i = i + 1;
        }
        assert(toks.skip(i as int).len() == 0);
        Ok(())
    }

    /// An error naming the parameters, when any are left.
    pub fn error_if_parameters_left(&self) -> (r: Result<(), String>)
        requires
            self.well_formed(),
        ensures
            r is Ok <==> self@.len() == 0,
            r matches Err(m) ==> m@ == unused_message(self@),
    {
        let n = self.names.len();
        if n == 0 {
            return Ok(());
        }
        let ghost e = self@;
        if n == 1 {
            let mut msg = chars_of("Unused parameter: ");
            msg.push('"');
            push_str(&mut msg, self.names[0].as_str());
            msg.push('"');
            assert(msg@ =~= unused_message(e));
            return Err(string_from_chars(&msg));
        }
        let mut msg = chars_of("Unused parameters: ");
        let ghost start = msg@;
        let mut i: usize = 0;
        while i < n
            invariant
                e == self@,
                self.well_formed(),
                n == e.len(),
                i <= n,
                msg@ == start + quoted_names(e.take(i as int)),
            decreases n - i,
        {
            if i > 0 {
                msg.push(',');
                msg.push(' ');
            }
            msg.push('"');
            push_str(&mut msg, self.names[i].as_str());
            msg.push('"');
            proof {
                lemma_quoted_names_take(e, i as int);
                if i == 0 {
                    assert(e.take(0).len() == 0);
                }
                assert(msg@ =~= start + quoted_names(e.take(i as int + 1)));
            }
            i = i + 1;
        }
        assert(e.take(n as int) =~= e);
        Err(string_from_chars(&msg))
    }

    /// The list written as `name=value` pairs separated by `;`.
    pub fn to_string(&self) -> (r: String)
        requires
            self.well_formed(),
        ensures
            r@ == list_text(self@),
    {
        let ghost e = self@;
        let mut out: Vec<char> = Vec::new();
        let mut i: usize = 0;
        while i < self.names.len()
            invariant
                e == self@,
                self.well_formed(),
                i <= e.len(),
                out@ == list_text(e.take(i as int)),
            decreases self.names.len() - i,
        {
            if i > 0 {
                out.push(';');
            }
            push_str(&mut out, self.names[i].as_str());
            out.push('=');
            push_str(&mut out, self.values[i].as_str());
            proof {
                lemma_list_text_take(e, i as int);
                if i == 0 {
                    assert(e.take(0).len() == 0);
                }
                assert(out@ =~= list_text(e.take(i as int + 1)));
            }
            i = i + 1;
        }
        assert(e.take(e.len() as int) =~= e);
        string_from_chars(&out)
    }
}

} // verus!
