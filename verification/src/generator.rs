use vstd::prelude::*;
use std::sync::Arc;
use std::sync::atomic::AtomicBool;
use std::time::{Duration, Instant};
use crate::grid::{Grid, lemma_grid_index};
use crate::text::{
    chars_of, string_from_chars, push_all, push_decimal, decimal, parsed_usize, parse_usize,
    slice_of, index_of_char, find_char, views,
};

verus! {

// ---------------------------------------------------------------------------------------
// Results and limits.
// ---------------------------------------------------------------------------------------

/// One generated pattern: the line shown to the user, the notation, and the pattern
/// setting.
#[derive(Clone, Debug, PartialEq, Eq)]
pub struct GeneratedPattern {
    pub display: String,
    pub notation: String,
    pub config: String,
}

/// Why a generation stopped before it had looked at every pattern.
#[derive(Clone, Debug, PartialEq, Eq)]
pub enum GenerationStopReason {
    PatternLimit(usize),
    TimeLimit(u64),
    Cancelled,
}

/// The patterns found, and why the search stopped early, if it did.
#[derive(Clone, Debug, PartialEq, Eq)]
pub struct GenerationResult {
    pub patterns: Vec<GeneratedPattern>,
    pub stop_reason: Option<GenerationStopReason>,
}

#[verifier::external_type_specification]
#[verifier::external_body]
pub struct ExInstant(std::time::Instant);

#[verifier::external_type_specification]
#[verifier::external_body]
pub struct ExRegex(regex::Regex);

/// How much of the search to do: at most so many patterns, at most so much time, and a
/// flag that another thread may raise to cancel.
#[derive(Clone, Debug)]
pub struct GeneratorLimits {
    pub max_patterns: Option<usize>,
    pub max_time: Option<Duration>,
    pub cancelled: Option<Arc<AtomicBool>>,
}

/// The whole seconds of a duration, as `Duration::as_secs` gives them.
pub uninterp spec fn whole_seconds(d: Duration) -> u64;

/// `Duration::from_secs`: a duration of `secs` whole seconds, so that `Duration::as_secs`
/// gives `secs` back, as its documentation says.
#[verifier::external_body]
fn duration_from_secs(secs: u64) -> (r: Duration)
    ensures
        whole_seconds(r) == secs,
{
    Duration::from_secs(secs)
}

/// `Duration::as_secs`: the whole seconds of `d`.
#[verifier::external_body]
fn duration_secs(d: &Duration) -> (r: u64)
    ensures
        r == whole_seconds(*d),
{
    d.as_secs()
}

/// `Instant::now`.
#[verifier::external_body]
fn now() -> Instant {
    Instant::now()
}

/// `Duration::subsec_nanos`: the fraction of the last second, in nanoseconds (below a
/// billion, as its documentation says).
#[verifier::external_body]
fn duration_subsec_nanos(d: &Duration) -> (r: u32)
    ensures
        r < 1_000_000_000,
{
    d.subsec_nanos()
}

/// `Instant::elapsed`: the time since `start`; it depends on the clock.
#[verifier::external_body]
fn elapsed_since(start: &Instant) -> Duration {
    start.elapsed()
}

/// Whether a duration of `a_secs` seconds and `a_nanos` nanoseconds is longer than one of
/// `b_secs` seconds and `b_nanos` nanoseconds (the order of `Duration`).
pub fn duration_longer(a_secs: u64, a_nanos: u32, b_secs: u64, b_nanos: u32) -> (r: bool)
    ensures
        r == (a_secs > b_secs || (a_secs == b_secs && a_nanos > b_nanos)),
{
    a_secs > b_secs || (a_secs == b_secs && a_nanos > b_nanos)
}

/// Whether more than `limit` has passed since `start`; the answer depends on the clock.
fn elapsed_beyond(start: &Instant, limit: &Duration) -> bool {
    let elapsed = elapsed_since(start);
    duration_longer(
        duration_secs(&elapsed),
        duration_subsec_nanos(&elapsed),
        duration_secs(limit),
        duration_subsec_nanos(limit),
    )
}

/// Whether the cancellation flag is raised; another thread may raise it at any time.
fn flag_raised(flag: &Arc<AtomicBool>) -> bool {
    flag.load(std::sync::atomic::Ordering::Relaxed)
}

impl GeneratorLimits {
    /// The limits of the application: a thousand patterns, fifteen seconds.
    pub fn application_defaults() -> (r: Self)
        ensures
            r.max_patterns == Some(1000usize),
            r.max_time matches Some(d) && whole_seconds(d) == 15,
            r.cancelled is None,
    {
        Self { max_patterns: Some(1000), max_time: Some(duration_from_secs(15)), cancelled: None }
    }

    /// No limits at all.
    pub fn unlimited() -> (r: Self)
        ensures
            r.max_patterns is None,
            r.max_time is None,
            r.cancelled is None,
    {
        Self { max_patterns: None, max_time: None, cancelled: None }
    }
}

// ---------------------------------------------------------------------------------------
// Regular expressions of the throw filters.
// ---------------------------------------------------------------------------------------

/// Whether `regex::Regex::new` accepts the pattern (it refuses invalid patterns and those
/// over its size limit).
pub uninterp spec fn regex_compiles(pattern: Seq<char>) -> bool;

/// Whether the regular expression `pattern` matches somewhere in `haystack`, as
/// `regex::Regex::is_match` answers.
pub uninterp spec fn regex_matches(pattern: Seq<char>, haystack: Seq<char>) -> bool;

/// A compiled regular expression together with the pattern it was compiled from.
pub struct FullRegex {
    source: Vec<char>,
    regex: regex::Regex,
}

impl View for FullRegex {
    type V = Seq<char>;

    closed spec fn view(&self) -> Seq<char> {
        self.source@
    }
}

/// Compiles `pattern` with `regex::Regex::new`; `None` when the crate refuses it.
#[verifier::external_body]
fn compile_regex(pattern: &Vec<char>) -> (r: Option<FullRegex>)
    ensures
        r is Some <==> regex_compiles(pattern@),
        r matches Some(x) ==> x@ == pattern@,
{
    let text: String = pattern.iter().collect();
    match regex::Regex::new(&text) {
        Ok(regex) => Some(FullRegex { source: pattern.clone(), regex }),
        Err(_) => None,
    }
}

/// `regex::Regex::is_match` on the text.
#[verifier::external_body]
fn regex_is_match(re: &FullRegex, text: &Vec<char>) -> (r: bool)
    ensures
        r == regex_matches(re@, text@),
{
    let haystack: String = text.iter().collect();
    re.regex.is_match(&haystack)
}

/// The expression anchored at both ends of the text, so that it must match all of it.
pub open spec fn anchored(expression: Seq<char>) -> Seq<char> {
    seq!['\\', 'A', '(', '?', ':'] + expression + seq![')', '\\', 'z']
}

fn full_regex(expression: &Vec<char>) -> (r: Option<FullRegex>)
    ensures
        r is Some <==> regex_compiles(anchored(expression@)),
        r matches Some(x) ==> x@ == anchored(expression@),
{
    let mut pattern: Vec<char> = Vec::new();
    pattern.push('\\');
    pattern.push('A');
    pattern.push('(');
    pattern.push('?');
    pattern.push(':');
    push_all(&mut pattern, expression);
    pattern.push(')');
    pattern.push('\\');
    pattern.push('z');
    assert(pattern@ =~= anchored(expression@));
    compile_regex(&pattern)
}

/// `s` with every two-character sequence `\c` written as `@`, read from the left.
pub open spec fn unescape_to_at(s: Seq<char>, c: char) -> Seq<char>
    decreases s.len(),
{
    if s.len() == 0 {
        s
    } else if s.len() >= 2 && s[0] == '\\' && s[1] == c {
        seq!['@'] + unescape_to_at(s.subrange(2, s.len() as int), c)
    } else {
        seq![s[0]] + unescape_to_at(s.drop_first(), c)
    }
}

/// `s` with every `c` replaced by `rep`.
pub open spec fn replace_char(s: Seq<char>, c: char, rep: Seq<char>) -> Seq<char>
    decreases s.len(),
{
    if s.len() == 0 {
        s
    } else if s[0] == c {
        rep + replace_char(s.drop_first(), c, rep)
    } else {
        seq![s[0]] + replace_char(s.drop_first(), c, rep)
    }
}

/// One round for the bracket `c`: escaped `\c` stands for the bracket itself and a bare
/// `c` becomes literal.
pub open spec fn swap_escape(s: Seq<char>, c: char) -> Seq<char> {
    replace_char(replace_char(unescape_to_at(s, c), c, seq!['\\', c]), '@', seq![c])
}

/// The filter term written as a regular expression: `[`, `]`, `(`, `)` and `|` are literal
/// unless escaped with `\`, in which case they keep their regex meaning.
pub open spec fn standard_regex(term: Seq<char>) -> Seq<char> {
    swap_escape(
        swap_escape(swap_escape(swap_escape(swap_escape(term, '['), ']'), '('), ')'),
        '|',
    )
}

fn unescape_to_at_exec(v: &Vec<char>, c: char) -> (r: Vec<char>)
    ensures
        r@ == unescape_to_at(v@, c),
{
    let mut r: Vec<char> = Vec::new();
    let mut i: usize = 0;
    assert(v@.skip(0) =~= v@);
    while i < v.len()
        invariant
            i <= v.len(),
            unescape_to_at(v@, c) == r@ + unescape_to_at(v@.skip(i as int), c),
        decreases v.len() - i,
    {
        let ghost rest = v@.skip(i as int);
        if i + 1 < v.len() && v[i] == '\\' && v[i + 1] == c {
            r.push('@');
            assert(rest.subrange(2, rest.len() as int) =~= v@.skip(i as int + 2));
            i = i + 2;
        } else {
            r.push(v[i]);
            assert(rest.drop_first() =~= v@.skip(i as int + 1));
            i = i + 1;
        }
        assert(unescape_to_at(v@, c) =~= r@ + unescape_to_at(v@.skip(i as int), c));
    }
    assert(v@.skip(i as int) =~= Seq::<char>::empty());
    assert(r@ + Seq::<char>::empty() =~= r@);
    r
}

fn replace_char_exec(v: &Vec<char>, c: char, rep: &Vec<char>) -> (r: Vec<char>)
    ensures
        r@ == replace_char(v@, c, rep@),
{
    let mut r: Vec<char> = Vec::new();
    let mut i: usize = 0;
    assert(v@.skip(0) =~= v@);
    while i < v.len()
        invariant
            i <= v.len(),
            replace_char(v@, c, rep@) == r@ + replace_char(v@.skip(i as int), c, rep@),
        decreases v.len() - i,
    {
        let ghost rest = v@.skip(i as int);
        assert(rest.drop_first() =~= v@.skip(i as int + 1));
        if v[i] == c {
            push_all(&mut r, rep);
        } else {
            r.push(v[i]);
        }
        i = i + 1;
        assert(replace_char(v@, c, rep@) =~= r@ + replace_char(v@.skip(i as int), c, rep@));
    }
    assert(v@.skip(i as int) =~= Seq::<char>::empty());
    assert(r@ + Seq::<char>::empty() =~= r@);
    r
}

fn swap_escape_exec(v: &Vec<char>, c: char) -> (r: Vec<char>)
    ensures
        r@ == swap_escape(v@, c),
{
    let a = unescape_to_at_exec(v, c);
    let mut escaped: Vec<char> = Vec::new();
    escaped.push('\\');
    escaped.push(c);
    assert(escaped@ =~= seq!['\\', c]);
    let b = replace_char_exec(&a, c, &escaped);
    let mut plain: Vec<char> = Vec::new();
    plain.push(c);
    assert(plain@ =~= seq![c]);
    replace_char_exec(&b, '@', &plain)
}

/// Turns a filter term into a regular expression (see `standard_regex`).
fn make_standard_regex(term: &Vec<char>) -> (r: Vec<char>)
    ensures
        r@ == standard_regex(term@),
{
    let a = swap_escape_exec(term, '[');
    let b = swap_escape_exec(&a, ']');
    let c = swap_escape_exec(&b, '(');
    let d = swap_escape_exec(&c, ')');
    swap_escape_exec(&d, '|')
}

// ---------------------------------------------------------------------------------------
// Small numeric helpers.
// ---------------------------------------------------------------------------------------

/// `x * y`, or the largest value when that overflows.
pub open spec fn sat_mul(x: int, y: int, max: int) -> int {
    if x * y > max {
        max
    } else {
        x * y
    }
}

fn saturating_mul_usize(x: usize, y: usize) -> (r: usize)
    ensures
        r == sat_mul(x as int, y as int, usize::MAX as int),
{
    match x.checked_mul(y) {
        Some(v) => v,
        None => usize::MAX,
    }
}

fn saturating_mul_u64(x: u64, y: u64) -> (r: u64)
    ensures
        r == sat_mul(x as int, y as int, u64::MAX as int),
{
    match x.checked_mul(y) {
        Some(v) => v,
        None => u64::MAX,
    }
}

fn saturating_mul_u128(x: u128, y: u128) -> (r: u128)
    ensures
        r == sat_mul(x as int, y as int, u128::MAX as int),
{
    match x.checked_mul(y) {
        Some(v) => v,
        None => u128::MAX,
    }
}

/// The running value of `binomial_saturating` after `k` factors.
pub open spec fn binomial_upto(a: nat, k: nat) -> nat
    decreases k,
{
    if k == 0 {
        1
    } else {
        let prev = binomial_upto(a, (k - 1) as nat);
        let factor: nat = if a >= (k - 1) as nat {
            (a - (k - 1)) as nat
        } else {
            0
        };
        (sat_mul(prev as int, factor as int, u128::MAX as int) / (k as int)) as nat
    }
}

/// `a` choose `b`, computed factor by factor in 128 bits, saturating on overflow.
pub open spec fn binomial_spec(a: nat, b: nat) -> nat {
    let r = binomial_upto(a, b);
    if r > usize::MAX {
        usize::MAX as nat
    } else {
        r
    }
}

proof fn lemma_binomial_bounded(a: nat, k: nat)
    ensures
        binomial_upto(a, k) <= u128::MAX,
    decreases k,
{
    if k > 0 {
        let prev = binomial_upto(a, (k - 1) as nat);
        lemma_binomial_bounded(a, (k - 1) as nat);
        let factor: nat = if a >= (k - 1) as nat {
            (a - (k - 1)) as nat
        } else {
            0
        };
        let m = sat_mul(prev as int, factor as int, u128::MAX as int);
        assert(0 <= m <= u128::MAX) by (nonlinear_arith)
            requires
                m == sat_mul(prev as int, factor as int, u128::MAX as int),
                prev >= 0,
                factor >= 0,
        ;
        assert(m / (k as int) <= m) by (nonlinear_arith)
            requires
                m >= 0,
                k >= 1,
        ;
    }
}

fn binomial_saturating(a: usize, b: usize) -> (r: usize)
    ensures
        r == binomial_spec(a as nat, b as nat),
{
    let mut result: u128 = 1;
    let mut index: usize = 0;
    while index < b
        invariant
            index <= b,
            result == binomial_upto(a as nat, index as nat),
        decreases b - index,
    {
        let factor: usize = a.saturating_sub(index);
        let m = saturating_mul_u128(result, factor as u128);
        proof {
            assert(0 <= m <= u128::MAX);
        }
        result = m / ((index + 1) as u128);
        index = index + 1;
        proof {
            lemma_binomial_bounded(a as nat, index as nat);
        }
    }
    if result > usize::MAX as u128 {
        usize::MAX
    } else {
        result as usize
    }
}

// ---------------------------------------------------------------------------------------
// The multiplexing filter of one landing slot: what may still land there.
// ---------------------------------------------------------------------------------------

pub const MP_EMPTY: i32 = 0;
pub const MP_THROW: i32 = 1;
pub const MP_LOWER_BOUND: i32 = 2;

/// One entry of the multiplexing filter: its kind (`MP_EMPTY`, `MP_THROW` or
/// `MP_LOWER_BOUND`), the hand a throw comes from, and the throw value.
#[derive(Clone, Copy, Debug, PartialEq, Eq)]
pub struct MpEntry {
    pub kind: i32,
    pub from: i32,
    pub value: i32,
}

/// What adding a throw (or a lower bound) to a filter entry gives: the new entry, and
/// whether the addition is refused (the pattern would clump throws).
pub open spec fn mp_add(
    d: MpEntry,
    slot_hand: int,
    throw_type: i32,
    value: i32,
    from: i32,
    holdthrow: int,
) -> (MpEntry, bool) {
    let set = MpEntry { kind: throw_type, from, value };
    if throw_type == MP_EMPTY {
        (d, false)
    } else if throw_type == MP_LOWER_BOUND {
        if d.kind == MP_EMPTY {
            (MpEntry { kind: MP_LOWER_BOUND, from, value }, false)
        } else {
            (d, false)
        }
    } else if throw_type == MP_THROW {
        if from == slot_hand && value == holdthrow {
            (d, false)
        } else if d.kind == MP_EMPTY {
            (MpEntry { kind: MP_THROW, from, value }, false)
        } else if d.kind == MP_LOWER_BOUND && (d.value <= value || d.value <= holdthrow) {
            (MpEntry { kind: MP_THROW, from, value }, false)
        } else if d.kind == MP_THROW && d.from == from && d.value == value {
            (d, false)
        } else {
            (d, true)
        }
    } else {
        (d, true)
    }
}

fn add_throw_mp_filter(
    destination: &mut MpEntry,
    slot_hand: usize,
    throw_type: i32,
    value: i32,
    from: i32,
    holdthrow: usize,
) -> (r: bool)
    requires
        slot_hand <= i32::MAX,
        holdthrow <= i32::MAX,
    ensures
        (*final(destination), r) == mp_add(
            *old(destination),
            slot_hand as int,
            throw_type,
            value,
            from,
            holdthrow as int,
        ),
{
    let hand = slot_hand as i32;
    let hold = holdthrow as i32;
    if throw_type == MP_EMPTY {
        false
    } else if throw_type == MP_LOWER_BOUND {
        if destination.kind == MP_EMPTY {
            *destination = MpEntry { kind: MP_LOWER_BOUND, from, value };
        }
        false
    } else if throw_type == MP_THROW {
        if from == hand && value == hold {
            return false;
        }
        if destination.kind == MP_EMPTY {
            *destination = MpEntry { kind: MP_THROW, from, value };
            false
        } else if destination.kind == MP_LOWER_BOUND && (destination.value <= value
            || destination.value <= hold) {
            *destination = MpEntry { kind: MP_THROW, from, value };
            false
        } else if destination.kind == MP_THROW && destination.from == from && destination.value
            == value {
            false
        } else {
            true
        }
    } else {
        true
    }
}

// ---------------------------------------------------------------------------------------
// Writing throws.
// ---------------------------------------------------------------------------------------

/// A throw value as a siteswap writes it: `0`-`9`, then `a`-`z` up to 35, then `{n}`.
pub open spec fn throw_text(value: nat) -> Seq<char> {
    if value > 35 {
        seq!['{'] + decimal(value) + seq!['}']
    } else if value < 10 {
        seq![(('0' as int) + value) as char]
    } else {
        seq![(('a' as int) + value - 10) as char]
    }
}

fn output_throw_value(value: usize, buffer: &mut Vec<char>)
    ensures
        final(buffer)@ == old(buffer)@ + throw_text(value as nat),
{
    if value > 35 {
        buffer.push('{');
        push_decimal(buffer, value as u64);
        buffer.push('}');
    } else if value < 10 {
        buffer.push(((48 + value) as u8) as char);
    } else {
        buffer.push(((97 + value - 10) as u8) as char);
    }
}

} // verus!

verus! {

// ---------------------------------------------------------------------------------------
// The generator's arguments: `balls max-throw period` and then options.
// ---------------------------------------------------------------------------------------

pub const ASYNC: usize = 0;
pub const SYNC: usize = 1;

/// The settings that the options give.
pub ghost struct Settings {
    pub numflag: nat,
    pub groundflag: nat,
    pub rotflag: nat,
    pub fullflag: nat,
    pub mpflag: nat,
    pub multiplex: nat,
    pub jugglers: nat,
    pub delaytime: nat,
    pub leader_person: nat,
    pub juggler_perms: bool,
    pub lame: bool,
    pub sequence: bool,
    pub sync: bool,
    pub connected: bool,
    pub symmetric: bool,
    pub clustered: bool,
    pub true_multiplex: bool,
    pub exclude: Seq<Seq<char>>,
    pub require: Seq<Seq<char>>,
}

/// The settings before any option is read.
pub open spec fn default_settings() -> Settings {
    Settings {
        numflag: 0,
        groundflag: 0,
        rotflag: 0,
        fullflag: 1,
        mpflag: 1,
        multiplex: 1,
        jugglers: 1,
        delaytime: 0,
        leader_person: 1,
        juggler_perms: false,
        lame: false,
        sequence: true,
        sync: false,
        connected: false,
        symmetric: false,
        clustered: true,
        true_multiplex: false,
        exclude: Seq::empty(),
        require: Seq::empty(),
    }
}

/// The error for a number that cannot be read.
pub open spec fn number_error(name: Seq<char>) -> Seq<char> {
    "Number format error in \""@ + name + "\" value"@
}

/// A count read from a word.
pub open spec fn read_number(w: Seq<char>, name: Seq<char>) -> Result<nat, Seq<char>> {
    match parsed_usize(w) {
        Some(v) => Ok(v as nat),
        None => Err(number_error(name)),
    }
}

pub open spec fn starts_with_dash(w: Seq<char>) -> bool {
    w.len() > 0 && w[0] == '-'
}

/// The value that follows the option at `i`, when there is one that is not an option.
pub open spec fn flag_value(args: Seq<Seq<char>>, i: int) -> Option<Seq<char>> {
    if i + 1 < args.len() && !starts_with_dash(args[i + 1]) {
        Some(args[i + 1])
    } else {
        None
    }
}

/// The filter expression that a `-x` (excluded) or `-i` (included) term stands for: it may
/// match anywhere unless anchored with `^` (and, when included, `$`).
pub open spec fn filter_expression(term: Seq<char>, excluded: bool) -> Seq<char> {
    let e = standard_regex(term);
    if excluded {
        if e.contains('^') {
            e
        } else {
            seq!['.', '*'] + e + seq!['.', '*']
        }
    } else {
        let e1 = if e.contains('^') {
            e
        } else {
            seq!['.', '*'] + e
        };
        if e1.contains('$') {
            e1
        } else {
            e1 + seq!['.', '*']
        }
    }
}

/// Reads the options from position `i` on. `terms` is 0 when reading options, 1 when
/// reading the terms of `-x`, 2 when reading those of `-i`.
pub open spec fn read_options(args: Seq<Seq<char>>, i: int, st: Settings, terms: nat) -> Result<
    Settings,
    Seq<char>,
>
    decreases args.len() - i, terms,
{
    if i < 0 || i >= args.len() {
        Ok(st)
    } else if terms != 0 {
        if starts_with_dash(args[i]) {
            read_options(args, i, st, 0)
        } else {
            let excluded = terms == 1;
            let pattern = anchored(filter_expression(args[i], excluded));
            if !regex_compiles(pattern) {
                Err(
                    if excluded {
                        "Format error in excluded throws"@
                    } else {
                        "Format error in included throws"@
                    },
                )
            } else if excluded {
                read_options(args, i + 1, Settings { exclude: st.exclude.push(pattern), ..st }, terms)
            } else {
                read_options(args, i + 1, Settings { require: st.require.push(pattern), ..st }, terms)
            }
        }
    } else {
        let a = args[i];
        if a == "-n"@ {
            read_options(args, i + 1, Settings { numflag: 1, ..st }, 0)
        } else if a == "-no"@ {
            read_options(args, i + 1, Settings { numflag: 2, ..st }, 0)
        } else if a == "-g"@ {
            read_options(args, i + 1, Settings { groundflag: 1, ..st }, 0)
        } else if a == "-ng"@ {
            read_options(args, i + 1, Settings { groundflag: 2, ..st }, 0)
        } else if a == "-f"@ {
            read_options(args, i + 1, Settings { fullflag: 0, ..st }, 0)
        } else if a == "-prime"@ {
            read_options(args, i + 1, Settings { fullflag: 2, ..st }, 0)
        } else if a == "-rot"@ {
            read_options(args, i + 1, Settings { rotflag: 1, ..st }, 0)
        } else if a == "-jp"@ {
            read_options(args, i + 1, Settings { juggler_perms: true, ..st }, 0)
        } else if a == "-lame"@ {
            read_options(args, i + 1, Settings { lame: true, ..st }, 0)
        } else if a == "-se"@ {
            read_options(args, i + 1, Settings { sequence: false, ..st }, 0)
        } else if a == "-s"@ {
            read_options(args, i + 1, Settings { sync: true, ..st }, 0)
        } else if a == "-cp"@ {
            read_options(args, i + 1, Settings { connected: true, ..st }, 0)
        } else if a == "-sym"@ {
            read_options(args, i + 1, Settings { symmetric: true, ..st }, 0)
        } else if a == "-mf"@ {
            read_options(args, i + 1, Settings { mpflag: 0, ..st }, 0)
        } else if a == "-mc"@ {
            read_options(args, i + 1, Settings { clustered: false, ..st }, 0)
        } else if a == "-mt"@ {
            read_options(args, i + 1, Settings { true_multiplex: true, ..st }, 0)
        } else if a == "-m"@ || a == "-j"@ || a == "-d"@ || a == "-l"@ {
            match flag_value(args, i) {
                None => read_options(args, i + 1, st, 0),
                Some(v) => {
                    let name = if a == "-m"@ {
                        "simultaneous throws"@
                    } else if a == "-j"@ {
                        "jugglers"@
                    } else if a == "-d"@ {
                        "passing communication delay"@
                    } else {
                        "passing leader number"@
                    };
                    match read_number(v, name) {
                        Err(m) => Err(m),
                        Ok(x) => {
                            let st2 = if a == "-m"@ {
                                Settings { multiplex: x, ..st }
                            } else if a == "-j"@ {
                                Settings { jugglers: x, ..st }
                            } else if a == "-d"@ {
                                Settings { delaytime: x, groundflag: 1, ..st }
                            } else {
                                Settings { leader_person: x, ..st }
                            };
                            read_options(args, i + 2, st2, 0)
                        },
                    }
                },
            }
        } else if a == "-x"@ {
            read_options(args, i + 1, st, 1)
        } else if a == "-i"@ {
            read_options(args, i + 1, st, 2)
        } else {
            Err("Unrecognized option \""@ + a + "\""@)
        }
    }
}

pub open spec fn hand_count(st: Settings) -> nat {
    if st.sync {
        2 * st.jugglers
    } else {
        st.jugglers
    }
}

pub open spec fn rhythm_period_of(st: Settings) -> nat {
    if st.sync {
        2
    } else {
        1
    }
}

/// The largest throw as the second word gives it: `-` for none, decimal digits, or one
/// lower-case letter (`a` is 10).
pub open spec fn read_max_throw(w: Seq<char>) -> Result<nat, Seq<char>> {
    if w == seq!['-'] {
        Ok(usize::MAX as nat)
    } else if crate::text::all_digits(w) {
        read_number(w, "max throw"@)
    } else if w.len() == 1 && 'a' <= w[0] && w[0] <= 'z' {
        Ok(((w[0] as int) - ('a' as int) + 10) as nat)
    } else {
        Err(number_error("max throw"@))
    }
}

/// The shortest and longest period as the third word gives them: `-`, `a-b`, `-b`, `a-` or
/// `a`; a missing bound is the rhythm period below and unbounded above.
pub open spec fn read_periods(w: Seq<char>, rp: nat) -> Result<(nat, nat), Seq<char>> {
    let d = index_of_char(w, '-');
    if w == seq!['-'] {
        Ok((rp, usize::MAX as nat))
    } else if d == 0 {
        match read_number(w.subrange(1, w.len() as int), "period"@) {
            Ok(hi) => Ok((rp, hi)),
            Err(m) => Err(m),
        }
    } else if d > 0 && d == w.len() - 1 {
        match read_number(w.subrange(0, d), "period"@) {
            Ok(lo) => Ok((lo, usize::MAX as nat)),
            Err(m) => Err(m),
        }
    } else if d > 0 {
        match read_number(w.subrange(0, d), "period"@) {
            Ok(lo) => match read_number(w.subrange(d + 1, w.len() as int), "period"@) {
                Ok(hi) => Ok((lo, hi)),
                Err(m) => Err(m),
            },
            Err(m) => Err(m),
        }
    } else {
        match read_number(w, "period"@) {
            Ok(x) => Ok((x, x)),
            Err(m) => Err(m),
        }
    }
}

pub open spec fn min_nat(a: nat, b: nat) -> nat {
    if a < b {
        a
    } else {
        b
    }
}

/// The counts of the first three words: objects, largest throw, shortest and longest
/// period, after the defaults and checks.
pub open spec fn read_counts(st: Settings, args: Seq<Seq<char>>) -> Result<
    (nat, nat, nat, nat),
    Seq<char>,
> {
    let rp = rhythm_period_of(st);
    let hands = hand_count(st);
    match read_number(args[0], "balls"@) {
        Err(m) => Err(m),
        Ok(n) => match read_max_throw(args[1]) {
            Err(m) => Err(m),
            Ok(ht0) => match read_periods(args[2], rp) {
                Err(m) => Err(m),
                Ok((lmin, lmax0)) => {
                    if n < 1 {
                        Err("Must have at least 1 object"@)
                    } else if lmax0 == usize::MAX && st.fullflag != 2 {
                        Err("Must specify max period if not in prime mode"@)
                    } else if lmax0 == usize::MAX && ht0 == usize::MAX {
                        Err("Either max throw or period must be specified"@)
                    } else {
                        let b = min_nat(
                            binomial_spec(
                                sat_mul(ht0 as int, hands as int, usize::MAX as int) as nat,
                                n,
                            ),
                            i32::MAX as nat,
                        );
                        let lmax: nat = if lmax0 == usize::MAX {
                            (b - b % rp) as nat
                        } else {
                            lmax0
                        };
                        let ht1: nat = if ht0 == usize::MAX {
                            min_nat(
                                sat_mul(n as int, lmax as int, usize::MAX as int) as nat,
                                i32::MAX as nat,
                            )
                        } else {
                            ht0
                        };
                        let ht = min_nat(ht1, sat_mul(n as int, lmax as int, usize::MAX as int) as nat);
                        if ht < 1 {
                            Err("Maximum throw must be at least 1"@)
                        } else if lmin < 1 || lmax < 1 || lmin > lmax {
                            Err("Syntax error in period"@)
                        } else if st.jugglers > 1 && !st.juggler_perms && st.groundflag != 0 {
                            Err(
                                "Must include juggler permutations when generating only ground or excited state patterns"@,
                            )
                        } else if lmin % rp != 0 || lmax % rp != 0 {
                            Err("Pattern period must be a multiple of "@ + decimal(rp))
                        } else {
                            Ok((n, ht, lmin, lmax))
                        }
                    }
                },
            },
        },
    }
}

/// The include filter that `-mt` adds, which keeps only patterns with a true multiplex
/// (two throws of one hand that are not both holds).
pub open spec fn true_multiplex_expression(st: Settings) -> Seq<char> {
    if st.jugglers == 1 && !st.sync {
        ".*\\[[^2]*\\].*"@
    } else if st.jugglers == 1 && st.sync {
        ".*\\[([^2\\]]*2x)*[^2\\]]*\\].*"@
    } else if !st.sync {
        ".*\\[([^2\\]]*(2p|.p2|2p.))*[^2\\]]*\\].*"@
    } else {
        ".*\\[([^2\\]]*(2p|.p2|2p.|2x|2xp|.xp2|2xp.))*[^2\\]]*\\].*"@
    }
}

/// Everything the generator works from, once the arguments are read.
pub ghost struct GenSpec {
    pub st: Settings,
    pub n: nat,
    pub ht: nat,
    pub l_min: nat,
    pub l_max: nat,
    pub hands: nat,
    pub rhythm_period: nat,
    pub ground_state_length: nat,
    pub slot_size: nat,
    pub max_occupancy: nat,
    pub mpflag: nat,
    pub require: Seq<Seq<char>>,
}

/// What the arguments give: the generator's settings or the error.
pub open spec fn read_arguments(text: Seq<char>) -> Result<GenSpec, Seq<char>> {
    let args = crate::text::words(text);
    if args.len() < 3 {
        Err("Must specify number of balls, max throw, and period"@)
    } else {
        match read_options(args, 3, default_settings(), 0) {
            Err(m) => Err(m),
            Ok(st) => if hand_count(st) > usize::MAX {
                Err("Memory needed is too large"@)
            } else { match read_counts(st, args) {
                Err(m) => Err(m),
                Ok((n, ht, l_min, l_max)) => {
                    let hands = hand_count(st);
                    let rp = rhythm_period_of(st);
                    let top = if ht > l_max {
                        ht
                    } else {
                        l_max
                    };
                    let slot_size = top + rp - top % rp;
                    let rows = ((n - 1) as nat) / hands;
                    let gsl = if rows * rp + 1 > ht {
                        rows * rp + 1
                    } else {
                        ht
                    };
                    let mt = anchored(true_multiplex_expression(st));
                    if hands == 0 {
                        Err("Must have at least 1 juggler"@)
                    } else if slot_size > usize::MAX {
                        Err("Memory needed is too large"@)
                    } else if st.true_multiplex && !regex_compiles(mt) {
                        Err("Format error in included throws"@)
                    } else {
                        Ok(
                            GenSpec {
                                st,
                                n,
                                ht,
                                l_min,
                                l_max,
                                hands,
                                rhythm_period: rp,
                                ground_state_length: gsl as nat,
                                slot_size: slot_size as nat,
                                max_occupancy: st.multiplex,
                                mpflag: if st.multiplex == 1 {
                                    0
                                } else {
                                    st.mpflag
                                },
                                require: if st.true_multiplex {
                                    st.require.push(mt)
                                } else {
                                    st.require
                                },
                            },
                        )
                    }
                },
            } },
        }
    }
}

pub open spec fn sat_add(x: int, y: int, max: int) -> int {
    if x + y > max {
        max
    } else {
        x + y
    }
}

/// The bytes the search tables take, saturating at `u64::MAX`; `None` when a size does not
/// fit in `usize`.
pub open spec fn memory_needed(g: GenSpec) -> Option<nat> {
    let word = (usize::BITS / 8) as int;
    let m = u64::MAX as int;
    let occ = sat_mul(g.hands as int, g.max_occupancy as int, usize::MAX as int);
    if occ + 1 > usize::MAX || g.l_max * (occ + 1) > usize::MAX || g.l_max + g.ht > usize::MAX
        || g.l_max + 1 > usize::MAX {
        None
    } else {
        let state = sat_mul(
            sat_mul(sat_mul((g.l_max + 1) as int, g.hands as int, m), g.ground_state_length as int, m),
            word,
            m,
        );
        let holes = sat_mul(sat_mul(g.hands as int, (g.l_max + g.ht) as int, m), word, m);
        let throws = sat_mul(
            sat_mul(sat_mul(sat_mul(2, g.slot_size as int, m), g.hands as int, m), g.max_occupancy as int, m),
            word,
            m,
        );
        let filter = if g.mpflag != 0 {
            sat_mul(
                sat_mul(sat_mul(sat_mul((g.l_max + 1) as int, g.hands as int, m), g.slot_size as int, m), 3, m),
                4,
                m,
            )
        } else {
            0
        };
        Some(sat_add(sat_add(sat_add(state, holes, m), throws, m), filter, m) as nat)
    }
}

pub const MAX_GENERATOR_MEMORY_BYTES: u64 = 104857600;

/// What the arguments give once the tables' size is checked.
pub open spec fn generator_setup(text: Seq<char>) -> Result<GenSpec, Seq<char>> {
    match read_arguments(text) {
        Err(m) => Err(m),
        Ok(g) => match memory_needed(g) {
            None => Err("Memory needed is too large"@),
            Some(b) => if b > MAX_GENERATOR_MEMORY_BYTES {
                Err("Memory needed is too large"@)
            } else {
                Ok(g)
            },
        },
    }
}

} // verus!

verus! {

/// The options as they are read, before the counts.
struct Flags {
    numflag: usize,
    groundflag: usize,
    rotflag: usize,
    fullflag: usize,
    mpflag: usize,
    multiplex: usize,
    jugglers: usize,
    delaytime: usize,
    leader_person: usize,
    juggler_perms: bool,
    lame: bool,
    sequence: bool,
    sync: bool,
    connected: bool,
    symmetric: bool,
    clustered: bool,
    true_multiplex: bool,
    exclude: Vec<FullRegex>,
    require: Vec<FullRegex>,
}

pub open spec fn regex_views(v: Seq<FullRegex>) -> Seq<Seq<char>> {
    Seq::new(v.len(), |i: int| v[i]@)
}

impl View for Flags {
    type V = Settings;

    closed spec fn view(&self) -> Settings {
        Settings {
            numflag: self.numflag as nat,
            groundflag: self.groundflag as nat,
            rotflag: self.rotflag as nat,
            fullflag: self.fullflag as nat,
            mpflag: self.mpflag as nat,
            multiplex: self.multiplex as nat,
            jugglers: self.jugglers as nat,
            delaytime: self.delaytime as nat,
            leader_person: self.leader_person as nat,
            juggler_perms: self.juggler_perms,
            lame: self.lame,
            sequence: self.sequence,
            sync: self.sync,
            connected: self.connected,
            symmetric: self.symmetric,
            clustered: self.clustered,
            true_multiplex: self.true_multiplex,
            exclude: regex_views(self.exclude@),
            require: regex_views(self.require@),
        }
    }
}

fn number_format_error(name: &str) -> (r: String)
    ensures
        r@ == number_error(name@),
{
    let mut msg = chars_of("Number format error in \"");
    crate::text::push_str(&mut msg, name);
    crate::text::push_str(&mut msg, "\" value");
    assert(msg@ =~= number_error(name@));
    string_from_chars(&msg)
}

fn parse_count(value: &Vec<char>, name: &str) -> (r: Result<usize, String>)
    ensures
        match r {
            Ok(v) => read_number(value@, name@) == Ok::<nat, Seq<char>>(v as nat),
            Err(m) => read_number(value@, name@) == Err::<nat, Seq<char>>(m@),
        },
{
    match parse_usize(value) {
        Some(v) => Ok(v),
        None => Err(number_format_error(name)),
    }
}

fn next_flag_value(args: &Vec<Vec<char>>, index: usize) -> (r: Option<usize>)
    requires
        index < args.len(),
    ensures
        match r {
            Some(k) => k == index + 1 && flag_value(views(args@), index as int) == Some(
                args@[k as int]@,
            ),
            None => flag_value(views(args@), index as int) is None,
        },
{
    if index + 1 < args.len() {
        let v = &args[index + 1];
        if !(v.len() > 0 && v[0] == '-') {
            return Some(index + 1);
        }
    }
    None
}

fn filter_term(term: &Vec<char>, excluded: bool) -> (r: Vec<char>)
    ensures
        r@ == filter_expression(term@, excluded),
{
    let e = make_standard_regex(term);
    let mut any: Vec<char> = Vec::new();
    any.push('.');
    any.push('*');
    if excluded {
        if crate::text::contains_char(&e, '^') {
            e
        } else {
            let mut r = any.clone();
            push_all(&mut r, &e);
            r.push('.');
            r.push('*');
            assert(r@ =~= filter_expression(term@, excluded));
            r
        }
    } else {
        let e1 = if crate::text::contains_char(&e, '^') {
            e
        } else {
            let mut r = any.clone();
            push_all(&mut r, &e);
            r
        };
        assert(e1@ =~= (if e@.contains('^') { e@ } else { seq!['.', '*'] + e@ }));
        if crate::text::contains_char(&e1, '$') {
            e1
        } else {
            let mut r = e1;
            r.push('.');
            r.push('*');
            assert(r@ =~= filter_expression(term@, excluded));
            r
        }
    }
}

fn default_flags() -> (r: Flags)
    ensures
        r@ == default_settings(),
{
    let f = Flags {
        numflag: 0,
        groundflag: 0,
        rotflag: 0,
        fullflag: 1,
        mpflag: 1,
        multiplex: 1,
        jugglers: 1,
        delaytime: 0,
        leader_person: 1,
        juggler_perms: false,
        lame: false,
        sequence: true,
        sync: false,
        connected: false,
        symmetric: false,
        clustered: true,
        true_multiplex: false,
        exclude: Vec::new(),
        require: Vec::new(),
    };
    assert(regex_views(f.exclude@) =~= Seq::<Seq<char>>::empty());
    assert(regex_views(f.require@) =~= Seq::<Seq<char>>::empty());
    f
}

/// Reads the options that follow the first three words.
#[verifier::rlimit(60)]
fn parse_flags(args: &Vec<Vec<char>>) -> (r: Result<Flags, String>)
    ensures
        match r {
            Ok(f) => read_options(views(args@), 3, default_settings(), 0) == Ok::<
                Settings,
                Seq<char>,
            >(f@),
            Err(m) => read_options(views(args@), 3, default_settings(), 0) == Err::<
                Settings,
                Seq<char>,
            >(m@),
        },
{
    let ghost a = views(args@);
    let mut f = default_flags();
    let mut i: usize = 3;
    let mut terms: usize = 0;
    while i < args.len()
        invariant
            a == views(args@),
            terms <= 2,
            i >= 3,
            read_options(a, 3, default_settings(), 0) == read_options(a, i as int, f@, terms as nat),
        decreases args.len() - i, terms,
    {
        let w = &args[i];
        assert(a[i as int] == w@);
        if terms != 0 {
            if w.len() > 0 && w[0] == '-' {
                terms = 0;
            } else {
                let excluded = terms == 1;
                let expression = filter_term(w, excluded);
                match full_regex(&expression) {
                    None => {
                        if excluded {
                            return Err("Format error in excluded throws".to_owned());
                        } else {
                            return Err("Format error in included throws".to_owned());
                        }
                    },
                    Some(re) => {
                        let ghost before = f@;
                        if excluded {
                            f.exclude.push(re);
                        } else {
                            f.require.push(re);
                        }
                        assert(regex_views(f.exclude@) =~= (if excluded {
                            before.exclude.push(anchored(expression@))
                        } else {
                            before.exclude
                        }));
                        assert(regex_views(f.require@) =~= (if excluded {
                            before.require
                        } else {
                            before.require.push(anchored(expression@))
                        }));
                    },
                }
                i = i + 1;
            }
        } else if crate::text::is_text(w, "-n") {
            f.numflag = 1;
            i = i + 1;
        } else if crate::text::is_text(w, "-no") {
            f.numflag = 2;
            i = i + 1;
        } else if crate::text::is_text(w, "-g") {
            f.groundflag = 1;
            i = i + 1;
        } else if crate::text::is_text(w, "-ng") {
            f.groundflag = 2;
            i = i + 1;
        } else if crate::text::is_text(w, "-f") {
            f.fullflag = 0;
            i = i + 1;
        } else if crate::text::is_text(w, "-prime") {
            f.fullflag = 2;
            i = i + 1;
        } else if crate::text::is_text(w, "-rot") {
            f.rotflag = 1;
            i = i + 1;
        } else if crate::text::is_text(w, "-jp") {
            f.juggler_perms = true;
            i = i + 1;
        } else if crate::text::is_text(w, "-lame") {
            f.lame = true;
            i = i + 1;
        } else if crate::text::is_text(w, "-se") {
            f.sequence = false;
            i = i + 1;
        } else if crate::text::is_text(w, "-s") {
            f.sync = true;
            i = i + 1;
        } else if crate::text::is_text(w, "-cp") {
            f.connected = true;
            i = i + 1;
        } else if crate::text::is_text(w, "-sym") {
            f.symmetric = true;
            i = i + 1;
        } else if crate::text::is_text(w, "-mf") {
            f.mpflag = 0;
            i = i + 1;
        } else if crate::text::is_text(w, "-mc") {
            f.clustered = false;
            i = i + 1;
        } else if crate::text::is_text(w, "-mt") {
            f.true_multiplex = true;
            i = i + 1;
        } else if crate::text::is_text(w, "-m") || crate::text::is_text(w, "-j")
            || crate::text::is_text(w, "-d") || crate::text::is_text(w, "-l") {
            let is_m = crate::text::is_text(w, "-m");
            let is_j = crate::text::is_text(w, "-j");
            let is_d = crate::text::is_text(w, "-d");
            match next_flag_value(args, i) {
                None => {
                    i = i + 1;
                },
                Some(k) => {
                    let name = if is_m {
                        "simultaneous throws"
                    } else if is_j {
                        "jugglers"
                    } else if is_d {
                        "passing communication delay"
                    } else {
                        "passing leader number"
                    };
                    let value = parse_count(&args[k], name);
                    match value {
                        Err(m) => {
                            return Err(m);
                        },
                        Ok(x) => {
                            if is_m {
                                f.multiplex = x;
                            } else if is_j {
                                f.jugglers = x;
                            } else if is_d {
                                f.delaytime = x;
                                f.groundflag = 1;
                            } else {
                                f.leader_person = x;
                            }
                            i = i + 2;
                        },
                    }
                },
            }
        } else if crate::text::is_text(w, "-x") {
            terms = 1;
            i = i + 1;
        } else if crate::text::is_text(w, "-i") {
            terms = 2;
            i = i + 1;
        } else {
            let mut msg = chars_of("Unrecognized option \"");
            push_all(&mut msg, w);
            crate::text::push_str(&mut msg, "\"");
            return Err(string_from_chars(&msg));
        }
    }
    Ok(f)
}

} // verus!

verus! {

/// Multiplying by a factor capped at the maximum saturates alike.
proof fn lemma_sat_mul_capped(x: int, y: int, y_capped: int)
    requires
        x >= 0,
        y >= 0,
        y_capped == (if y > usize::MAX { usize::MAX as int } else { y }),
    ensures
        sat_mul(x, y, usize::MAX as int) == sat_mul(x, y_capped, usize::MAX as int),
{
    if y > usize::MAX && x >= 1 {
        assert(x * y >= y) by (nonlinear_arith)
            requires
                x >= 1,
                y >= 0,
        ;
        assert(x * y_capped >= y_capped) by (nonlinear_arith)
            requires
                x >= 1,
                y_capped >= 0,
        ;
    }
}

fn all_ascii_digits(w: &Vec<char>) -> (r: bool)
    ensures
        r == crate::text::all_digits(w@),
{
    let mut i: usize = 0;
    while i < w.len()
        invariant
            i <= w.len(),
            forall|j: int| 0 <= j < i ==> crate::text::is_digit(#[trigger] w@[j]),
        decreases w.len() - i,
    {
        if !('0' <= w[i] && w[i] <= '9') {
            return false;
        }
        i = i + 1;
    }
    true
}

fn read_max_throw_exec(w: &Vec<char>) -> (r: Result<usize, String>)
    ensures
        match r {
            Ok(v) => read_max_throw(w@) == Ok::<nat, Seq<char>>(v as nat),
            Err(m) => read_max_throw(w@) == Err::<nat, Seq<char>>(m@),
        },
{
    if w.len() == 1 && w[0] == '-' {
        assert(w@ =~= seq!['-']);
        return Ok(usize::MAX);
    }
    assert(w@ != seq!['-']);
    if all_ascii_digits(w) {
        parse_count(w, "max throw")
    } else if w.len() == 1 && 'a' <= w[0] && w[0] <= 'z' {
        let c = w[0] as u32;
        Ok((c - 97 + 10) as usize)
    } else {
        Err(number_format_error("max throw"))
    }
}

fn read_periods_exec(w: &Vec<char>, rp: usize) -> (r: Result<(usize, usize), String>)
    ensures
        match r {
            Ok((lo, hi)) => read_periods(w@, rp as nat) == Ok::<(nat, nat), Seq<char>>(
                (lo as nat, hi as nat),
            ),
            Err(m) => read_periods(w@, rp as nat) == Err::<(nat, nat), Seq<char>>(m@),
        },
{
    if w.len() == 1 && w[0] == '-' {
        assert(w@ =~= seq!['-']);
        return Ok((rp, usize::MAX));
    }
    assert(w@ != seq!['-']);
    match find_char(w, '-') {
        Some(d) => {
            if d == 0 {
                let rest = slice_of(w, 1, w.len());
                match parse_count(&rest, "period") {
                    Ok(hi) => Ok((rp, hi)),
                    Err(m) => Err(m),
                }
            } else if d == w.len() - 1 {
                let first = slice_of(w, 0, d);
                match parse_count(&first, "period") {
                    Ok(lo) => Ok((lo, usize::MAX)),
                    Err(m) => Err(m),
                }
            } else {
                let first = slice_of(w, 0, d);
                match parse_count(&first, "period") {
                    Ok(lo) => {
                        let rest = slice_of(w, d + 1, w.len());
                        match parse_count(&rest, "period") {
                            Ok(hi) => Ok((lo, hi)),
                            Err(m) => Err(m),
                        }
                    },
                    Err(m) => Err(m),
                }
            }
        },
        None => match parse_count(w, "period") {
            Ok(x) => Ok((x, x)),
            Err(m) => Err(m),
        },
    }
}

/// Reads and checks the counts of the first three words (see `read_counts`).
#[verifier::rlimit(40)]
fn parse_input_config(args: &Vec<Vec<char>>, f: &Flags) -> (r: Result<
    (usize, usize, usize, usize),
    String,
>)
    requires
        args.len() >= 3,
    ensures
        match r {
            Ok((n, ht, lmin, lmax)) => read_counts(f@, views(args@)) == Ok::<
                (nat, nat, nat, nat),
                Seq<char>,
            >((n as nat, ht as nat, lmin as nat, lmax as nat)),
            Err(m) => read_counts(f@, views(args@)) == Err::<(nat, nat, nat, nat), Seq<char>>(
                m@,
            ),
        },
{
    let ghost a = views(args@);
    assert(a[0] == args@[0]@ && a[1] == args@[1]@ && a[2] == args@[2]@);
    let rp: usize = if f.sync { 2 } else { 1 };
    let hands: usize = if f.sync { saturating_mul_usize(2, f.jugglers) } else { f.jugglers };
    let n = match parse_count(&args[0], "balls") {
        Ok(v) => v,
        Err(m) => {
            return Err(m);
        },
    };
    let ht0 = match read_max_throw_exec(&args[1]) {
        Ok(v) => v,
        Err(m) => {
            return Err(m);
        },
    };
    let (lmin, lmax0) = match read_periods_exec(&args[2], rp) {
        Ok(p) => p,
        Err(m) => {
            return Err(m);
        },
    };
    if n < 1 {
        return Err("Must have at least 1 object".to_owned());
    }
    if lmax0 == usize::MAX && f.fullflag != 2 {
        return Err("Must specify max period if not in prime mode".to_owned());
    }
    if lmax0 == usize::MAX && ht0 == usize::MAX {
        return Err("Either max throw or period must be specified".to_owned());
    }
    proof {
        lemma_sat_mul_capped(ht0 as int, hand_count(f@) as int, hands as int);
    }
    let mut lmax = lmax0;
    if lmax0 == usize::MAX {
        let b0 = binomial_saturating(saturating_mul_usize(ht0, hands), n);
        let b: usize = if b0 < 2147483647 { b0 } else { 2147483647 };
        lmax = b - b % rp;
    }
    let ht1: usize = if ht0 == usize::MAX {
        let p = saturating_mul_usize(n, lmax);
        if p < 2147483647 { p } else { 2147483647 }
    } else {
        ht0
    };
    let cap = saturating_mul_usize(n, lmax);
    let ht: usize = if ht1 < cap { ht1 } else { cap };
    if ht < 1 {
        return Err("Maximum throw must be at least 1".to_owned());
    }
    if lmin < 1 || lmax < 1 || lmin > lmax {
        return Err("Syntax error in period".to_owned());
    }
    if f.jugglers > 1 && !f.juggler_perms && f.groundflag != 0 {
        return Err(
            "Must include juggler permutations when generating only ground or excited state patterns".to_owned(),
        );
    }
    if lmin % rp != 0 || lmax % rp != 0 {
        let mut msg = chars_of("Pattern period must be a multiple of ");
        push_decimal(&mut msg, rp as u64);
        return Err(string_from_chars(&msg));
    }
    Ok((n, ht, lmin, lmax))
}

} // verus!

verus! {

/// Whether the ground state has an object at position `i` of hand `h`: the objects sit on
/// the throwing beats (multiples of the rhythm period), filling the hands in order.
pub open spec fn ground_cell(g: GenSpec, h: int, i: int) -> nat {
    if i % (g.rhythm_period as int) == 0 && (i / (g.rhythm_period as int)) * g.hands + h < g.n {
        1
    } else {
        0
    }
}

/// The generator's settings once read.
struct SiteswapGeneratorConfig {
    settings: Ghost<Settings>,
    n: usize,
    jugglers: usize,
    ht: usize,
    l_min: usize,
    l_max: usize,
    exclude: Vec<FullRegex>,
    require: Vec<FullRegex>,
    numflag: usize,
    groundflag: usize,
    rotflag: usize,
    fullflag: usize,
    mpflag: usize,
    multiplex: usize,
    delaytime: usize,
    hands: usize,
    max_occupancy: usize,
    leader_person: usize,
    rhythm_period: usize,
    ground_state: Vec<Vec<usize>>,
    ground_state_length: usize,
    mp_clustered_flag: bool,
    lame_flag: bool,
    sequence_flag: bool,
    connected_patterns_flag: bool,
    symmetric_patterns_flag: bool,
    juggler_permutations_flag: bool,
    mode: usize,
    slot_size: usize,
}

impl SiteswapGeneratorConfig {
    spec fn spec_of(&self) -> GenSpec {
        GenSpec {
            st: self.settings@,
            n: self.n as nat,
            ht: self.ht as nat,
            l_min: self.l_min as nat,
            l_max: self.l_max as nat,
            hands: self.hands as nat,
            rhythm_period: self.rhythm_period as nat,
            ground_state_length: self.ground_state_length as nat,
            slot_size: self.slot_size as nat,
            max_occupancy: self.max_occupancy as nat,
            mpflag: self.mpflag as nat,
            require: regex_views(self.require@),
        }
    }

    /// The exec fields agree with the settings, and the tables have their sizes.
    spec fn wf(&self) -> bool {
        let st = self.settings@;
        let g = self.spec_of();
        &&& self.numflag == st.numflag
        &&& self.groundflag == st.groundflag
        &&& self.rotflag == st.rotflag
        &&& self.fullflag == st.fullflag
        &&& self.multiplex == st.multiplex
        &&& self.jugglers == st.jugglers
        &&& self.delaytime == st.delaytime
        &&& self.leader_person == st.leader_person
        &&& self.juggler_permutations_flag == st.juggler_perms
        &&& self.lame_flag == st.lame
        &&& self.sequence_flag == st.sequence
        &&& self.connected_patterns_flag == st.connected
        &&& self.symmetric_patterns_flag == st.symmetric
        &&& self.mp_clustered_flag == st.clustered
        &&& self.mode == (if st.sync { SYNC } else { ASYNC })
        &&& regex_views(self.exclude@) == st.exclude
        &&& self.hands == hand_count(st)
        &&& self.rhythm_period == rhythm_period_of(st)
        &&& self.max_occupancy == self.multiplex
        &&& self.n >= 1
        &&& self.ht >= 1
        &&& 1 <= self.l_min <= self.l_max
        &&& self.hands >= 1
        &&& self.ground_state_length >= self.ht
        &&& self.slot_size > self.ht
        &&& self.slot_size > self.l_max
        &&& self.ground_state.len() == self.hands
        &&& forall|h: int|
            0 <= h < self.hands ==> (#[trigger] self.ground_state@[h]).len()
                == self.ground_state_length
        &&& forall|h: int, i: int|
            0 <= h < self.hands && 0 <= i < self.ground_state_length ==> #[trigger] self.ground_state@[h]@[i]
                == ground_cell(g, h, i)
    }
}

fn ground_row(n: usize, hands: usize, rp: usize, h: usize, gsl: usize, g: Ghost<GenSpec>) -> (r: Vec<
    usize,
>)
    requires
        hands >= 1,
        rp >= 1,
        h < hands,
        g@.n == n,
        g@.hands == hands,
        g@.rhythm_period == rp,
    ensures
        r.len() == gsl,
        forall|i: int| 0 <= i < gsl ==> #[trigger] r@[i] == ground_cell(g@, h as int, i),
{
    let mut row: Vec<usize> = Vec::new();
    let mut i: usize = 0;
    while i < gsl
        invariant
            hands >= 1,
            rp >= 1,
            h < hands,
            g@.n == n,
            g@.hands == hands,
            g@.rhythm_period == rp,
            i <= gsl,
            row.len() == i,
            forall|j: int| 0 <= j < i ==> #[trigger] row@[j] == ground_cell(g@, h as int, j),
        decreases gsl - i,
    {
        let mut cell: usize = 0;
        if i % rp == 0 {
            match (i / rp).checked_mul(hands) {
                Some(p) => {
                    if p < n && h < n - p {
                        cell = 1;
                    }
                },
                None => {
                    assert((i / rp) * hands > usize::MAX);
                },
            }
        }
        row.push(cell);
        i = i + 1;
    }
    row
}

impl SiteswapGeneratorConfig {
    /// Reads the arguments (see `read_arguments`).
    #[verifier::rlimit(60)]
    fn parse(arguments: &str) -> (r: Result<Self, String>)
        ensures
            match r {
                Ok(c) => c.wf() && read_arguments(arguments@) == Ok::<GenSpec, Seq<char>>(
                    c.spec_of(),
                ),
                Err(m) => read_arguments(arguments@) == Err::<GenSpec, Seq<char>>(m@),
            },
    {
        let text = chars_of(arguments);
        let args = crate::text::split_words(&text);
        if args.len() < 3 {
            return Err("Must specify number of balls, max throw, and period".to_owned());
        }
        let flags = match parse_flags(&args) {
            Ok(f) => f,
            Err(m) => {
                return Err(m);
            },
        };
        let ghost st = flags@;
        let rp: usize = if flags.sync { 2 } else { 1 };
        let hands: usize = if flags.sync {
            match flags.jugglers.checked_mul(2) {
                Some(h) => h,
                None => {
                    return Err("Memory needed is too large".to_owned());
                },
            }
        } else {
            flags.jugglers
        };
        let (n, ht, l_min, l_max) = match parse_input_config(&args, &flags) {
            Ok(c) => c,
            Err(m) => {
                return Err(m);
            },
        };
        if hands == 0 {
            return Err("Must have at least 1 juggler".to_owned());
        }
        let top = if ht > l_max { ht } else { l_max };
        let slot_size = match (top - top % rp).checked_add(rp) {
            Some(s) => s,
            None => {
                return Err("Memory needed is too large".to_owned());
            },
        };
        let rows = (n - 1) / hands;
        proof {
            assert(rows * rp <= n - 1) by (nonlinear_arith)
                requires
                    rows == (n - 1) as int / hands as int,
                    rp == 1 || (rp == 2 && hands >= 2),
                    n >= 1,
                    hands >= 1,
            ;
        }
        let gsl = if rows * rp + 1 > ht { rows * rp + 1 } else { ht };
        let mut require = flags.require;
        if flags.true_multiplex {
            let expression = if flags.jugglers == 1 && !flags.sync {
                chars_of(".*\\[[^2]*\\].*")
            } else if flags.jugglers == 1 && flags.sync {
                chars_of(".*\\[([^2\\]]*2x)*[^2\\]]*\\].*")
            } else if !flags.sync {
                chars_of(".*\\[([^2\\]]*(2p|.p2|2p.))*[^2\\]]*\\].*")
            } else {
                chars_of(".*\\[([^2\\]]*(2p|.p2|2p.|2x|2xp|.xp2|2xp.))*[^2\\]]*\\].*")
            };
            match full_regex(&expression) {
                Some(re) => {
                    let ghost before = require@;
                    require.push(re);
                    assert(regex_views(require@) =~= regex_views(before).push(anchored(expression@)));
                },
                None => {
                    return Err("Format error in included throws".to_owned());
                },
            }
        }
        let ghost g = GenSpec {
            st,
            n: n as nat,
            ht: ht as nat,
            l_min: l_min as nat,
            l_max: l_max as nat,
            hands: hands as nat,
            rhythm_period: rp as nat,
            ground_state_length: gsl as nat,
            slot_size: slot_size as nat,
            max_occupancy: flags.multiplex as nat,
            mpflag: if flags.multiplex == 1 { 0 } else { flags.mpflag as nat },
            require: regex_views(require@),
        };
        let mut ground_state: Vec<Vec<usize>> = Vec::new();
        let mut h: usize = 0;
        while h < hands
            invariant
                hands >= 1,
                rp == 1 || rp == 2,
                g.n == n,
                g.hands == hands,
                g.rhythm_period == rp,
                h <= hands,
                ground_state.len() == h,
                forall|k: int| 0 <= k < h ==> (#[trigger] ground_state@[k]).len() == gsl,
                forall|k: int, i: int|
                    0 <= k < h && 0 <= i < gsl ==> #[trigger] ground_state@[k]@[i] == ground_cell(
                        g,
                        k,
                        i,
                    ),
            decreases hands - h,
        {
            let row = ground_row(n, hands, rp, h, gsl, Ghost(g));
            ground_state.push(row);
            h = h + 1;
        }
        let c = Self {
            settings: Ghost(st),
            n,
            jugglers: flags.jugglers,
            ht,
            l_min,
            l_max,
            exclude: flags.exclude,
            require,
            numflag: flags.numflag,
            groundflag: flags.groundflag,
            rotflag: flags.rotflag,
            fullflag: flags.fullflag,
            mpflag: if flags.multiplex == 1 { 0 } else { flags.mpflag },
            multiplex: flags.multiplex,
            delaytime: flags.delaytime,
            hands,
            max_occupancy: flags.multiplex,
            leader_person: flags.leader_person,
            rhythm_period: rp,
            ground_state,
            ground_state_length: gsl,
            mp_clustered_flag: flags.clustered,
            lame_flag: flags.lame,
            sequence_flag: flags.sequence,
            connected_patterns_flag: flags.connected,
            symmetric_patterns_flag: flags.symmetric,
            juggler_permutations_flag: flags.juggler_perms,
            mode: if flags.sync { SYNC } else { ASYNC },
            slot_size,
        };
        proof {
            assert(c.spec_of() == g);
            assert(top + rp - top % rp == slot_size);
            assert(c.wf());
            let a = crate::text::words(arguments@);
            assert(read_options(a, 3, default_settings(), 0) == Ok::<Settings, Seq<char>>(st));
            assert(read_counts(st, a) == Ok::<(nat, nat, nat, nat), Seq<char>>((n as nat, ht as nat, l_min as nat, l_max as nat)));
            assert(read_arguments(arguments@) == Ok::<GenSpec, Seq<char>>(g));
        }
        Ok(c)
    }
}

} // verus!

verus! {

/// Bounds that the memory check gives the search tables (each holds at most 2^25 entries).
pub open spec fn small(g: GenSpec) -> bool {
    let b = 33554432int;
    &&& (g.l_max + 1) * g.hands * g.ground_state_length <= b
    &&& g.hands * (g.l_max + g.ht) <= b
    &&& g.slot_size * g.hands * g.max_occupancy <= b
    &&& g.mpflag != 0 ==> (g.l_max + 1) * g.hands * g.slot_size <= b
    &&& g.l_max + 1 <= b
    &&& g.ground_state_length <= b
    &&& g.hands <= b
    &&& g.l_max + g.ht <= b
    &&& g.slot_size <= b + 2
    &&& g.max_occupancy <= b
}

/// Products of table dimensions that the bounds keep small.
proof fn lemma_small_products(g: GenSpec)
    requires
        small(g),
        g.hands >= 1,
        g.ground_state_length >= 1,
    ensures
        g.hands * g.ground_state_length <= 33554432,
{
    assert(g.hands * g.ground_state_length <= (g.l_max + 1) * g.hands * g.ground_state_length)
        by (nonlinear_arith)
        requires
            g.hands >= 0,
            g.ground_state_length >= 0,
            g.l_max >= 0,
    ;
}

proof fn lemma_sat_mul_below(x: int, y: int, m: int, bound: int)
    requires
        x >= 0,
        y >= 0,
        bound < m,
        sat_mul(x, y, m) <= bound,
    ensures
        sat_mul(x, y, m) == x * y,
        x * y <= bound,
{
}

proof fn lemma_sat_mul_nonneg(x: int, y: int, m: int)
    requires
        x >= 0,
        y >= 0,
        m >= 0,
    ensures
        sat_mul(x, y, m) >= 0,
{
    assert(x * y >= 0) by (nonlinear_arith)
        requires
            x >= 0,
            y >= 0,
    ;
}

proof fn lemma_factor_below(x: int, y: int, bound: int)
    requires
        x >= 0,
        y >= 1,
        x * y <= bound,
    ensures
        x <= bound,
{
    assert(x <= x * y) by (nonlinear_arith)
        requires
            x >= 0,
            y >= 1,
    ;
}

proof fn lemma_sat_add_below(x: int, y: int, m: int, bound: int)
    requires
        x >= 0,
        y >= 0,
        bound < m,
        sat_add(x, y, m) <= bound,
    ensures
        x <= bound,
        y <= bound,
{
}

/// The memory check bounds every table.
#[verifier::rlimit(40)]
proof fn lemma_memory_small(g: GenSpec, b: nat)
    requires
        memory_needed(g) == Some(b),
        b <= MAX_GENERATOR_MEMORY_BYTES,
        g.hands >= 1,
        g.ground_state_length >= g.ht >= 1,
        g.l_max >= 1,
        g.slot_size <= (if g.ht > g.l_max { g.ht } else { g.l_max }) + 2,
        g.slot_size > g.ht,
    ensures
        small(g),
{
    let word = (usize::BITS / 8) as int;
    let m = u64::MAX as int;
    let bound = MAX_GENERATOR_MEMORY_BYTES as int;
    assert(word >= 4);
    let l1 = (g.l_max + 1) as int;
    let h = g.hands as int;
    let gsl = g.ground_state_length as int;
    let x1 = sat_mul(l1, h, m);
    let x2 = sat_mul(x1, gsl, m);
    let state = sat_mul(x2, word, m);
    let holes = sat_mul(sat_mul(h, (g.l_max + g.ht) as int, m), word, m);
    let t1 = sat_mul(2, g.slot_size as int, m);
    let t2 = sat_mul(t1, h, m);
    let t3 = sat_mul(t2, g.max_occupancy as int, m);
    let throws = sat_mul(t3, word, m);
    let filter = if g.mpflag != 0 {
        sat_mul(sat_mul(sat_mul(sat_mul(l1, h, m), g.slot_size as int, m), 3, m), 4, m)
    } else {
        0
    };
    assert(x1 >= 0 && x2 >= 0 && state >= 0 && holes >= 0 && throws >= 0 && filter >= 0) by (
    nonlinear_arith)
        requires
            l1 >= 0,
            h >= 0,
            gsl >= 0,
            word >= 0,
            x1 == sat_mul(l1, h, m),
            x2 == sat_mul(x1, gsl, m),
            state == sat_mul(x2, word, m),
            holes == sat_mul(sat_mul(h, (g.l_max + g.ht) as int, m), word, m),
            throws == sat_mul(t3, word, m),
            t3 == sat_mul(t2, g.max_occupancy as int, m),
            t2 == sat_mul(t1, h, m),
            t1 == sat_mul(2, g.slot_size as int, m),
            filter == (if g.mpflag != 0 {
                sat_mul(sat_mul(sat_mul(sat_mul(l1, h, m), g.slot_size as int, m), 3, m), 4, m)
            } else {
                0
            }),
            m > 0,
    ;
    let s1 = sat_add(state, holes, m);
    let s2 = sat_add(s1, throws, m);
    lemma_sat_add_below(s2, filter, m, bound);
    lemma_sat_add_below(s1, throws, m, bound);
    lemma_sat_add_below(state, holes, m, bound);
    // the state table
    lemma_sat_mul_below(x2, word, m, bound);
    lemma_factor_below(x2, word, bound);
    assert(x2 * word <= bound);
    assert(x2 <= 26214400) by (nonlinear_arith)
        requires
            x2 * word <= 104857600,
            word >= 4,
            x2 >= 0,
    ;
    lemma_sat_mul_below(x1, gsl, m, 26214400);
    lemma_factor_below(x1, gsl, 26214400);
    lemma_sat_mul_below(l1, h, m, 26214400);
    lemma_factor_below(l1, h, 26214400);
    assert(h * l1 == l1 * h) by (nonlinear_arith);
    lemma_factor_below(h, l1, 26214400);
    assert(gsl * x1 == x1 * gsl) by (nonlinear_arith);
    assert(x1 >= 1) by (nonlinear_arith)
        requires
            x1 == l1 * h,
            l1 >= 1,
            h >= 1,
    ;
    lemma_factor_below(gsl, x1, 26214400);
    // the holes table
    let hh = sat_mul(h, (g.l_max + g.ht) as int, m);
    lemma_sat_mul_nonneg(h, (g.l_max + g.ht) as int, m);
    lemma_sat_mul_below(hh, word, m, bound);
    assert(hh <= 26214400) by (nonlinear_arith)
        requires
            hh * word <= 104857600,
            word >= 4,
            hh >= 0,
    ;
    lemma_sat_mul_below(h, (g.l_max + g.ht) as int, m, 26214400);
    assert((g.l_max + g.ht) * h == h * (g.l_max + g.ht)) by (nonlinear_arith);
    lemma_factor_below((g.l_max + g.ht) as int, h, 26214400);
    // the throw tables
    lemma_sat_mul_nonneg(2, g.slot_size as int, m);
    lemma_sat_mul_nonneg(t1, h, m);
    lemma_sat_mul_nonneg(t2, g.max_occupancy as int, m);
    lemma_sat_mul_below(t3, word, m, bound);
    assert(t3 <= 26214400) by (nonlinear_arith)
        requires
            t3 * word <= 104857600,
            word >= 4,
            t3 >= 0,
    ;
    lemma_sat_mul_below(t2, g.max_occupancy as int, m, 26214400);
    if g.max_occupancy >= 1 {
        lemma_factor_below(t2, g.max_occupancy as int, 26214400);
        lemma_sat_mul_below(t1, h, m, 26214400);
        lemma_factor_below(t1, h, 26214400);
        lemma_sat_mul_below(2, g.slot_size as int, m, 26214400);
        assert(g.slot_size * g.hands * g.max_occupancy <= 2 * g.slot_size * g.hands * g.max_occupancy)
            by (nonlinear_arith)
            requires
                g.slot_size >= 0,
                g.hands >= 0,
                g.max_occupancy >= 0,
        ;
        assert(2 * g.slot_size * g.hands * g.max_occupancy == t2 * g.max_occupancy) by (
        nonlinear_arith)
            requires
                t1 == 2 * g.slot_size,
                t2 == t1 * h,
                h == g.hands,
        ;
        assert(g.max_occupancy * t2 == t2 * g.max_occupancy) by (nonlinear_arith);
        assert(t2 >= 1) by (nonlinear_arith)
            requires
                t1 == 2 * g.slot_size,
                t2 == t1 * h,
                g.slot_size >= 1,
                h >= 1,
        ;
        lemma_factor_below(g.max_occupancy as int, t2, 26214400);
    } else {
        assert(g.slot_size * g.hands * g.max_occupancy == 0) by (nonlinear_arith)
            requires
                g.max_occupancy == 0,
        ;
    }
    // the multiplexing filter
    if g.mpflag != 0 {
        let f1 = sat_mul(l1, h, m);
        let f2 = sat_mul(f1, g.slot_size as int, m);
        let f3 = sat_mul(f2, 3, m);
        lemma_sat_mul_nonneg(l1, h, m);
        lemma_sat_mul_nonneg(f1, g.slot_size as int, m);
        lemma_sat_mul_nonneg(f2, 3, m);
        lemma_sat_mul_below(f3, 4, m, bound);
        lemma_sat_mul_below(f2, 3, m, bound);
        lemma_sat_mul_below(f1, g.slot_size as int, m, bound);
    }
}

} // verus!

verus! {

// ---------------------------------------------------------------------------------------
// The search.
// ---------------------------------------------------------------------------------------

/// Why the search stops early: a limit, or a table entry out of its range (which the
/// search never produces).
enum Halt {
    Stop(GenerationStopReason),
    Internal,
}

/// The text without the characters up to the space at either end.
pub open spec fn trim_controls(s: Seq<char>) -> Seq<char>
    decreases s.len(),
{
    if s.len() > 0 && s[0] <= ' ' {
        trim_controls(s.drop_first())
    } else if s.len() > 0 && s.last() <= ' ' {
        trim_controls(s.drop_last())
    } else {
        s
    }
}

/// A generated pattern as the filters allow it: its setting is a pattern text (trimmed)
/// that every required expression matches and no excluded expression matches.
pub open spec fn pattern_ok(p: GeneratedPattern, g: GenSpec) -> bool {
    &&& p.notation@ == "siteswap"@
    &&& exists|b: Seq<char>|
        {
            &&& trim_controls(b) == p.config@
            &&& forall|i: int| 0 <= i < g.require.len() ==> regex_matches(#[trigger] g.require[i], b)
            &&& forall|i: int| 0 <= i < g.st.exclude.len() ==> !regex_matches(#[trigger] g.st.exclude[i], b)
        }
}

struct SiteswapGenerator {
    config: SiteswapGeneratorConfig,
    limits: GeneratorLimits,
    state: Grid<usize>,
    l_target: usize,
    throws_left: Grid<usize>,
    holes: Grid<usize>,
    throw_to: Grid<usize>,
    throw_value: Grid<usize>,
    mp_filter: Grid<MpEntry>,
    connections: Vec<bool>,
    starting_sequence: Vec<char>,
    ending_sequence: Vec<char>,
    patterns_found: usize,
    check_counter: usize,
    started_at: Instant,
    patterns: Vec<GeneratedPattern>,
}

impl SiteswapGenerator {
    spec fn wf(&self) -> bool {
        let c = self.config;
        let g = c.spec_of();
        &&& c.wf()
        &&& small(g)
        &&& self.state.wf()
        &&& self.state.d0 == c.l_max + 1
        &&& self.state.d1 == c.hands
        &&& self.state.d2 == c.ground_state_length
        &&& self.throws_left.wf()
        &&& self.throws_left.d0 == c.l_max
        &&& self.throws_left.d1 == c.hands
        &&& self.throws_left.d2 == 1
        &&& self.holes.wf()
        &&& self.holes.d0 == c.hands
        &&& self.holes.d1 == c.l_max + c.ht
        &&& self.holes.d2 == 1
        &&& self.throw_to.wf()
        &&& self.throw_to.d0 == c.slot_size
        &&& self.throw_to.d1 == c.hands
        &&& self.throw_to.d2 == c.max_occupancy
        &&& forall|k: int| 0 <= k < self.throw_to.data.len() ==> #[trigger] self.throw_to.data@[k] < c.hands
        &&& self.throw_value.wf()
        &&& self.throw_value.d0 == c.slot_size
        &&& self.throw_value.d1 == c.hands
        &&& self.throw_value.d2 == c.max_occupancy
        &&& c.mpflag != 0 ==> {
            &&& self.mp_filter.wf()
            &&& self.mp_filter.d0 == c.l_max + 1
            &&& self.mp_filter.d1 == c.hands
            &&& self.mp_filter.d2 == c.slot_size
        }
        &&& c.connected_patterns_flag ==> self.connections.len() == c.jugglers
        &&& c.numflag == 2 ==> self.patterns.len() == 0
        &&& c.numflag != 2 ==> self.patterns.len() == self.patterns_found
        &&& forall|i: int| 0 <= i < self.patterns.len() ==> pattern_ok(#[trigger] self.patterns@[i], g)
    }

    /// No pattern limit has been reached.
    spec fn below_limit(&self) -> bool {
        self.limits.max_patterns matches Some(k) ==> (k == 0 || self.patterns_found < k)
    }

    /// The parts that the search does not change.
    spec fn same_setup(&self, other: &Self) -> bool {
        &&& self.config == other.config
        &&& self.limits == other.limits
        &&& self.l_target == other.l_target
    }

    /// What a step of the search leaves: within the limit, or stopped exactly at it.
    spec fn outcome<T>(&self, r: Result<T, Halt>) -> bool {
        match r {
            Ok(_) => self.below_limit(),
            Err(Halt::Stop(GenerationStopReason::PatternLimit(x))) => self.limits.max_patterns
                == Some(x) && self.patterns_found == x,
            Err(Halt::Stop(GenerationStopReason::TimeLimit(x))) => (self.limits.max_time matches Some(d) && x == whole_seconds(d))
                && self.below_limit(),
            Err(Halt::Stop(GenerationStopReason::Cancelled)) => self.limits.cancelled is Some
                && self.below_limit(),
            Err(Halt::Internal) => true,
        }
    }

    /// The target period is one the search runs over.
    spec fn searching(&self) -> bool {
        self.config.l_min <= self.l_target <= self.config.l_max
    }

    /// The juggler (from 1) whose hand `hand` is.
    spec fn person_of(&self, hand: int) -> int {
        if self.config.mode == SYNC {
            hand / 2 + 1
        } else {
            hand + 1
        }
    }

    /// How many objects hand `hand` catches and throws on beat `beat + index`.
    fn rhythm(&self, beat: usize, hand: usize, index: usize) -> (r: usize)
        requires
            self.wf(),
            beat + index <= usize::MAX,
        ensures
            r <= self.config.max_occupancy,
            r == (if (beat + index) % (self.config.rhythm_period as int) == 0 {
                self.config.multiplex
            } else {
                0
            }),
    {
        if (beat + index) % self.config.rhythm_period == 0 {
            self.config.multiplex
        } else {
            0
        }
    }

    /// The juggler (from 1) whose hand `hand` is.
    fn person_number(&self, hand: usize) -> (r: usize)
        requires
            self.wf(),
            hand < self.config.hands,
        ensures
            1 <= r <= self.config.jugglers,
            r == self.person_of(hand as int),
    {
        proof {
            assert(self.config.hands == hand_count(self.config.settings@));
        }
        if self.config.mode == SYNC {
            hand / 2 + 1
        } else {
            hand + 1
        }
    }

    /// The beat on which a hand may hold an object instead of throwing it.
    fn holdthrow(&self, hand: usize) -> (r: usize)
        ensures
            r == 2,
    {
        2
    }

    /// Whether the cancellation flag is raised or the time is up.
    fn check_stopping(&self) -> (r: Result<(), Halt>)
        ensures
            match r {
                Ok(_) => true,
                Err(Halt::Stop(GenerationStopReason::TimeLimit(x))) => (self.limits.max_time matches Some(d) && x == whole_seconds(d)),
                Err(Halt::Stop(GenerationStopReason::Cancelled)) => self.limits.cancelled is Some,
                Err(_) => false,
            },
            self.limits.cancelled is None && self.limits.max_time is None ==> r is Ok,
    {
        match &self.limits.cancelled {
            Some(flag) => {
                if flag_raised(flag) {
                    return Err(Halt::Stop(GenerationStopReason::Cancelled));
                }
            },
            None => {},
        }
        match &self.limits.max_time {
            Some(limit) => {
                if elapsed_beyond(&self.started_at, limit) {
                    return Err(Halt::Stop(GenerationStopReason::TimeLimit(duration_secs(limit))));
                }
            },
            None => {},
        }
        Ok(())
    }

    /// Counts a step and looks at the limits every hundred steps.
    fn tick(&mut self) -> (r: Result<(), Halt>)
        ensures
            final(self).config == old(self).config,
            final(self).limits == old(self).limits,
            final(self).l_target == old(self).l_target,
            final(self).state == old(self).state,
            final(self).throws_left == old(self).throws_left,
            final(self).holes == old(self).holes,
            final(self).throw_to == old(self).throw_to,
            final(self).throw_value == old(self).throw_value,
            final(self).mp_filter == old(self).mp_filter,
            final(self).connections == old(self).connections,
            final(self).patterns == old(self).patterns,
            final(self).patterns_found == old(self).patterns_found,
            final(self).starting_sequence == old(self).starting_sequence,
            final(self).ending_sequence == old(self).ending_sequence,
            match r {
                Ok(_) => true,
                Err(Halt::Stop(GenerationStopReason::TimeLimit(x))) => (old(self).limits.max_time matches Some(d) && x == whole_seconds(d)),
                Err(Halt::Stop(GenerationStopReason::Cancelled)) => old(self).limits.cancelled is Some,
                Err(_) => false,
            },
            old(self).check_counter < 100 ==> r is Ok && final(self).check_counter
                == old(self).check_counter + 1,
            old(self).check_counter >= 100 ==> final(self).check_counter == 0,
            old(self).limits.cancelled is None && old(self).limits.max_time is None ==> r is Ok,
    {
        if self.check_counter >= 100 {
            self.check_counter = 0;
            self.check_stopping()
        } else {
            self.check_counter = self.check_counter + 1;
            Ok(())
        }
    }

    /// Whether the states at beats `a` and `b` are the same.
    fn states_equal(&self, a: usize, b: usize) -> (r: bool)
        requires
            self.wf(),
            a <= self.config.l_max,
            b <= self.config.l_max,
        ensures
            r == (forall|h: int, i: int|
                0 <= h < self.config.hands && 0 <= i < self.config.ground_state_length
                    ==> #[trigger] self.state.at(a as int, h, i) == self.state.at(b as int, h, i)),
    {
        let hands = self.config.hands;
        let gsl = self.config.ground_state_length;
        let mut h: usize = 0;
        while h < hands
            invariant
                self.wf(),
                hands == self.config.hands,
                gsl == self.config.ground_state_length,
                a <= self.config.l_max,
                b <= self.config.l_max,
                h <= hands,
                forall|h2: int, i: int|
                    0 <= h2 < h && 0 <= i < gsl ==> #[trigger] self.state.at(a as int, h2, i)
                        == self.state.at(b as int, h2, i),
            decreases hands - h,
        {
            let mut i: usize = 0;
            while i < gsl
                invariant
                    self.wf(),
                    hands == self.config.hands,
                    gsl == self.config.ground_state_length,
                    a <= self.config.l_max,
                    b <= self.config.l_max,
                    h < hands,
                    i <= gsl,
                    forall|h2: int, i2: int|
                        0 <= h2 < h && 0 <= i2 < gsl ==> #[trigger] self.state.at(a as int, h2, i2)
                            == self.state.at(b as int, h2, i2),
                    forall|i2: int| 0 <= i2 < i ==> #[trigger] self.state.at(a as int, h as int, i2)
                        == self.state.at(b as int, h as int, i2),
                decreases gsl - i,
            {
                if self.state.get(a, h, i) != self.state.get(b, h, i) {
                    return false;
                }
                i = i + 1;
            }
            h = h + 1;
        }
        true
    }

    /// Whether the state at beat `b` is the ground state.
    fn is_ground_state(&self, b: usize) -> (r: bool)
        requires
            self.wf(),
            b <= self.config.l_max,
        ensures
            r == (forall|h: int, i: int|
                0 <= h < self.config.hands && 0 <= i < self.config.ground_state_length
                    ==> #[trigger] self.state.at(b as int, h, i) == ground_cell(self.config.spec_of(), h, i)),
    {
        let hands = self.config.hands;
        let gsl = self.config.ground_state_length;
        let mut h: usize = 0;
        while h < hands
            invariant
                self.wf(),
                hands == self.config.hands,
                gsl == self.config.ground_state_length,
                b <= self.config.l_max,
                h <= hands,
                forall|h2: int, i: int|
                    0 <= h2 < h && 0 <= i < gsl ==> #[trigger] self.state.at(b as int, h2, i)
                        == ground_cell(self.config.spec_of(), h2, i),
            decreases hands - h,
        {
            let mut i: usize = 0;
            while i < gsl
                invariant
                    self.wf(),
                    hands == self.config.hands,
                    gsl == self.config.ground_state_length,
                    b <= self.config.l_max,
                    h < hands,
                    i <= gsl,
                    forall|h2: int, i2: int|
                        0 <= h2 < h && 0 <= i2 < gsl ==> #[trigger] self.state.at(b as int, h2, i2)
                            == ground_cell(self.config.spec_of(), h2, i2),
                    forall|i2: int| 0 <= i2 < i ==> #[trigger] self.state.at(b as int, h as int, i2)
                        == ground_cell(self.config.spec_of(), h as int, i2),
                decreases gsl - i,
            {
                assert(self.config.ground_state@[h as int]@[i as int] == ground_cell(self.config.spec_of(), h as int, i as int));
                if self.state.get(b, h, i) != self.config.ground_state[h][i] {
                    return false;
                }
                i = i + 1;
            }
            h = h + 1;
        }
        true
    }
}

} // verus!

verus! {

/// The entries of the state at beat `a`, hand by hand.
pub open spec fn state_cells(s: Grid<usize>, a: int) -> Seq<usize> {
    Seq::new((s.d1 * s.d2) as nat, |k: int| s.at(a, k / (s.d2 as int), k % (s.d2 as int)))
}

/// The entries of the state at beat `a` from the highest position down, and within a
/// position from the last hand down.
pub open spec fn state_cells_desc(s: Grid<usize>, a: int) -> Seq<usize> {
    Seq::new(
        (s.d1 * s.d2) as nat,
        |k: int| s.at(a, s.d1 - 1 - k % (s.d1 as int), s.d2 - 1 - k / (s.d1 as int)),
    )
}

pub open spec fn seq_max(s: Seq<usize>) -> nat
    decreases s.len(),
{
    if s.len() == 0 {
        0
    } else {
        let m = seq_max(s.drop_last());
        if s.last() > m {
            s.last() as nat
        } else {
            m
        }
    }
}

/// The first difference of two sequences of equal length decides: 1 when the first is
/// larger there, -1 when smaller, 0 when they are equal.
pub open spec fn lex_compare(a: Seq<usize>, b: Seq<usize>) -> i32
    decreases a.len(),
{
    if a.len() == 0 || b.len() == 0 {
        0
    } else if a[0] > b[0] {
        1
    } else if a[0] < b[0] {
        -1i32
    } else {
        lex_compare(a.drop_first(), b.drop_first())
    }
}

/// How two states compare: by their largest entry, then from the highest position down.
pub open spec fn state_order(s: Grid<usize>, a: int, b: int) -> i32 {
    let ma = seq_max(state_cells(s, a));
    let mb = seq_max(state_cells(s, b));
    if ma > mb {
        1
    } else if ma < mb {
        -1i32
    } else {
        lex_compare(state_cells_desc(s, a), state_cells_desc(s, b))
    }
}

proof fn lemma_cell_index(k: int, d1: int, d2: int)
    requires
        d1 >= 1,
        d2 >= 1,
        0 <= k < d1 * d2,
    ensures
        0 <= k / d2 < d1,
        0 <= k % d2 < d2,
        0 <= k % d1 < d1,
        0 <= k / d1 < d2,
{
    assert(0 <= k / d2 < d1) by (nonlinear_arith)
        requires
            d1 >= 1,
            d2 >= 1,
            0 <= k < d1 * d2,
    ;
    assert(0 <= k / d1 < d2) by (nonlinear_arith)
        requires
            d1 >= 1,
            d2 >= 1,
            0 <= k < d1 * d2,
    ;
}

proof fn lemma_seq_max_push(s: Seq<usize>, x: usize)
    ensures
        seq_max(s.push(x)) == (if x > seq_max(s) { x as nat } else { seq_max(s) }),
{
    assert(s.push(x).drop_last() =~= s);
}

proof fn lemma_lex_skip(a: Seq<usize>, b: Seq<usize>, k: int)
    requires
        0 <= k <= a.len(),
        a.len() == b.len(),
        forall|j: int| 0 <= j < k ==> a[j] == b[j],
    ensures
        lex_compare(a, b) == lex_compare(a.skip(k), b.skip(k)),
    decreases k,
{
    if k > 0 {
        assert(a.skip(1) =~= a.drop_first());
        assert(b.skip(1) =~= b.drop_first());
        assert forall|j: int| 0 <= j < k - 1 implies a.drop_first()[j] == b.drop_first()[j] by {
            assert(a.drop_first()[j] == a[j + 1]);
        }
        lemma_lex_skip(a.drop_first(), b.drop_first(), k - 1);
        assert(a.drop_first().skip(k - 1) =~= a.skip(k));
        assert(b.drop_first().skip(k - 1) =~= b.skip(k));
    } else {
        assert(a.skip(0) =~= a);
        assert(b.skip(0) =~= b);
    }
}

impl SiteswapGenerator {
    /// The largest entry of the state at beat `a`.
    fn state_max(&self, a: usize) -> (r: usize)
        requires
            self.wf(),
            a <= self.config.l_max,
        ensures
            r == seq_max(state_cells(self.state, a as int)),
    {
        let hands = self.config.hands;
        let gsl = self.config.ground_state_length;
        let ghost cells = state_cells(self.state, a as int);
        let mut best: usize = 0;
        let mut k: usize = 0;
        proof {
            lemma_small_products(self.config.spec_of());
        }
        let total = hands * gsl;
        assert(cells.take(0) =~= Seq::<usize>::empty());
        while k < total
            invariant
                self.wf(),
                hands == self.config.hands,
                gsl == self.config.ground_state_length,
                a <= self.config.l_max,
                total == hands * gsl,
                cells == state_cells(self.state, a as int),
                k <= total,
                best == seq_max(cells.take(k as int)),
            decreases total - k,
        {
            proof {
                lemma_cell_index(k as int, hands as int, gsl as int);
            }
            let v = self.state.get(a, k / gsl, k % gsl);
            proof {
                assert(cells.take(k as int + 1) =~= cells.take(k as int).push(v));
                lemma_seq_max_push(cells.take(k as int), v);
            }
            if v > best {
                best = v;
            }
            k = k + 1;
        }
        assert(cells.take(total as int) =~= cells);
        best
    }

    /// Compares the states at beats `a` and `b` (see `state_order`).
    fn compare_states(&self, a: usize, b: usize) -> (r: i32)
        requires
            self.wf(),
            a <= self.config.l_max,
            b <= self.config.l_max,
        ensures
            r == state_order(self.state, a as int, b as int),
    {
        let max_left = self.state_max(a);
        let max_right = self.state_max(b);
        if max_left > max_right {
            return 1;
        }
        if max_left < max_right {
            return -1;
        }
        let hands = self.config.hands;
        let gsl = self.config.ground_state_length;
        proof {
            lemma_small_products(self.config.spec_of());
        }
        let total = hands * gsl;
        let ghost da = state_cells_desc(self.state, a as int);
        let ghost db = state_cells_desc(self.state, b as int);
        let mut k: usize = 0;
        while k < total
            invariant
                self.wf(),
                hands == self.config.hands,
                gsl == self.config.ground_state_length,
                a <= self.config.l_max,
                b <= self.config.l_max,
                total == hands * gsl,
                da == state_cells_desc(self.state, a as int),
                db == state_cells_desc(self.state, b as int),
                da.len() == total && db.len() == total,
                seq_max(state_cells(self.state, a as int)) == seq_max(state_cells(self.state, b as int)),
                k <= total,
                forall|j: int| 0 <= j < k ==> da[j] == db[j],
            decreases total - k,
        {
            proof {
                lemma_cell_index(k as int, hands as int, gsl as int);
            }
            let hand = hands - 1 - k % hands;
            let index = gsl - 1 - k / hands;
            let x = self.state.get(a, hand, index);
            let y = self.state.get(b, hand, index);
            if x != y {
                proof {
                    lemma_lex_skip(da, db, k as int);
                    assert(da.skip(k as int)[0] == x);
                    assert(db.skip(k as int)[0] == y);
                }
                if x > y {
                    return 1;
                } else {
                    return -1;
                }
            }
            k = k + 1;
        }
        proof {
            lemma_lex_skip(da, db, total as int);
        }
        0
    }

    /// How many of the throws that hand `from` makes on beat `b`, from slot `slot` up to the
    /// first empty one, land in hand `hand` at position `index` of the next state.
    spec fn slot_landings(&self, b: int, from: int, slot: int, hand: int, index: int) -> int
        decreases self.config.max_occupancy - slot,
    {
        if slot < 0 || slot >= self.config.max_occupancy || self.throw_value.at(b, from, slot) == 0 {
            0
        } else {
            (if self.throw_to.at(b, from, slot) == hand && self.throw_value.at(b, from, slot) == index + 1 {
                1int
            } else {
                0int
            }) + self.slot_landings(b, from, slot + 1, hand, index)
        }
    }

    /// How many of the throws made on beat `b` by the hands from `from` on land in hand
    /// `hand` at position `index` of the next state.
    spec fn hand_landings(&self, b: int, from: int, hand: int, index: int) -> int
        decreases self.config.hands - from,
    {
        if from < 0 || from >= self.config.hands {
            0
        } else {
            self.slot_landings(b, from, 0, hand, index) + self.hand_landings(b, from + 1, hand, index)
        }
    }

    proof fn lemma_slot_landings_nonneg(&self, b: int, from: int, slot: int, hand: int, index: int)
        ensures
            self.slot_landings(b, from, slot, hand, index) >= 0,
        decreases self.config.max_occupancy - slot,
    {
        if !(slot < 0 || slot >= self.config.max_occupancy || self.throw_value.at(b, from, slot) == 0) {
            self.lemma_slot_landings_nonneg(b, from, slot + 1, hand, index);
        }
    }

    proof fn lemma_hand_landings_nonneg(&self, b: int, from: int, hand: int, index: int)
        ensures
            self.hand_landings(b, from, hand, index) >= 0,
        decreases self.config.hands - from,
    {
        if !(from < 0 || from >= self.config.hands) {
            self.lemma_slot_landings_nonneg(b, from, 0, hand, index);
            self.lemma_hand_landings_nonneg(b, from + 1, hand, index);
        }
    }

    /// Position `index` of hand `hand` in the state at beat `b - 1` moved down one position
    /// (positions from the highest throw on are left as the state at `b` has them).
    spec fn shifted_cell(&self, b: int, hand: int, index: int) -> int {
        if index < self.config.ht {
            if index + 1 < self.config.ht {
                self.state.at(b - 1, hand, index + 1) as int
            } else {
                0
            }
        } else {
            self.state.at(b, hand, index) as int
        }
    }

    /// The state at beat `b` as `calculate_state` computes it from beat `b - 1`.
    spec fn next_cell(&self, b: int, hand: int, index: int) -> int {
        self.shifted_cell(b, hand, index) + self.hand_landings(b - 1, 0, hand, index)
    }

    /// Every throw made on beat `b` (up to each hand's first empty slot) lands inside the
    /// state, and no position of the next state overflows.
    spec fn next_state_fits(&self, b: int) -> bool {
        &&& forall|from: int, slot: int|
            0 <= from < self.config.hands && 0 <= slot < self.config.max_occupancy && (forall|k: int|
                0 <= k <= slot ==> #[trigger] self.throw_value.at(b - 1, from, k) != 0)
                ==> #[trigger] self.throw_value.at(b - 1, from, slot) <= self.config.ground_state_length
        &&& forall|hand: int, index: int|
            0 <= hand < self.config.hands && 0 <= index < self.config.ground_state_length
                ==> #[trigger] self.next_cell(b, hand, index) <= usize::MAX
    }

    /// The state after beat `beat - 1`: the earlier state moved down one position, with the
    /// objects thrown on that beat added where they land.
    #[verifier::rlimit(40)]
    fn calculate_state(&mut self, beat: usize) -> (r: Result<(), Halt>)
        requires
            old(self).wf(),
            1 <= beat <= old(self).config.l_max,
        ensures
            final(self).wf(),
            final(self).config == old(self).config,
            final(self).limits == old(self).limits,
            final(self).l_target == old(self).l_target,
            final(self).patterns == old(self).patterns,
            final(self).patterns_found == old(self).patterns_found,
            final(self).throws_left == old(self).throws_left,
            final(self).holes == old(self).holes,
            final(self).throw_to == old(self).throw_to,
            final(self).throw_value == old(self).throw_value,
            final(self).mp_filter == old(self).mp_filter,
            final(self).connections == old(self).connections,
            final(self).starting_sequence == old(self).starting_sequence,
            final(self).ending_sequence == old(self).ending_sequence,
            r is Ok || r is Err && r->Err_0 is Internal,
            old(self).next_state_fits(beat as int) ==> r is Ok,
            r is Ok ==> final(self).state.d0 == old(self).state.d0 && final(self).state.d1 == old(
                self,
            ).state.d1 && final(self).state.d2 == old(self).state.d2,
            r is Ok ==> forall|x: int, y: int, z: int|
                old(self).state.in_grid(x, y, z) ==> #[trigger] final(self).state.at(x, y, z) == if x
                    == beat {
                    old(self).next_cell(beat as int, y, z)
                } else {
                    old(self).state.at(x, y, z) as int
                },
    {
        let hands = self.config.hands;
        let ht = self.config.ht;
        let maxocc = self.config.max_occupancy;
        let gsl = self.config.ground_state_length;
        let mut hand: usize = 0;
        while hand < hands
            invariant
                self.wf(),
                old(self).wf(),
                self.config == old(self).config,
                self.limits == old(self).limits,
                self.l_target == old(self).l_target,
                self.patterns == old(self).patterns,
                self.patterns_found == old(self).patterns_found,
                self.throws_left == old(self).throws_left,
                self.holes == old(self).holes,
                self.throw_to == old(self).throw_to,
                self.throw_value == old(self).throw_value,
                self.mp_filter == old(self).mp_filter,
                self.connections == old(self).connections,
                self.starting_sequence == old(self).starting_sequence,
                self.ending_sequence == old(self).ending_sequence,
                hands == self.config.hands,
                ht == self.config.ht,
                gsl == self.config.ground_state_length,
                1 <= beat <= self.config.l_max,
                hand <= hands,
                self.state.d0 == old(self).state.d0,
                self.state.d1 == old(self).state.d1,
                self.state.d2 == old(self).state.d2,
                forall|x: int, y: int, z: int|
                    old(self).state.in_grid(x, y, z) ==> #[trigger] self.state.at(x, y, z) == if x
                        == beat && y < hand {
                        old(self).shifted_cell(beat as int, y, z)
                    } else {
                        old(self).state.at(x, y, z) as int
                    },
            decreases hands - hand,
        {
            let mut index: usize = 0;
            while index + 1 < ht
                invariant
                    self.wf(),
                    old(self).wf(),
                    self.config == old(self).config,
                    self.limits == old(self).limits,
                    self.l_target == old(self).l_target,
                    self.patterns == old(self).patterns,
                    self.patterns_found == old(self).patterns_found,
                    self.throws_left == old(self).throws_left,
                    self.holes == old(self).holes,
                    self.throw_to == old(self).throw_to,
                    self.throw_value == old(self).throw_value,
                    self.mp_filter == old(self).mp_filter,
                    self.connections == old(self).connections,
                    self.starting_sequence == old(self).starting_sequence,
                    self.ending_sequence == old(self).ending_sequence,
                    hands == self.config.hands,
                    ht == self.config.ht,
                    gsl == self.config.ground_state_length,
                    1 <= beat <= self.config.l_max,
                    hand < hands,
                    index < ht,
                    self.state.d0 == old(self).state.d0,
                    self.state.d1 == old(self).state.d1,
                    self.state.d2 == old(self).state.d2,
                    forall|x: int, y: int, z: int|
                        old(self).state.in_grid(x, y, z) ==> #[trigger] self.state.at(x, y, z) == if x
                            == beat && (y < hand || (y == hand && z < index)) {
                            old(self).shifted_cell(beat as int, y, z)
                        } else {
                            old(self).state.at(x, y, z) as int
                        },
                decreases ht - index,
            {
                let v = self.state.get(beat - 1, hand, index + 1);
                self.state.set(beat, hand, index, v);
                index = index + 1;
            }
            self.state.set(beat, hand, ht - 1, 0);
            hand = hand + 1;
        }
        let mut hand: usize = 0;
        while hand < hands
            invariant
                self.wf(),
                old(self).wf(),
                self.config == old(self).config,
                self.limits == old(self).limits,
                self.l_target == old(self).l_target,
                self.patterns == old(self).patterns,
                self.patterns_found == old(self).patterns_found,
                self.throws_left == old(self).throws_left,
                self.holes == old(self).holes,
                self.throw_to == old(self).throw_to,
                self.throw_value == old(self).throw_value,
                self.mp_filter == old(self).mp_filter,
                self.connections == old(self).connections,
                self.starting_sequence == old(self).starting_sequence,
                self.ending_sequence == old(self).ending_sequence,
                hands == self.config.hands,
                maxocc == self.config.max_occupancy,
                gsl == self.config.ground_state_length,
                1 <= beat <= self.config.l_max,
                hand <= hands,
                self.state.d0 == old(self).state.d0,
                self.state.d1 == old(self).state.d1,
                self.state.d2 == old(self).state.d2,
                forall|x: int, y: int, z: int|
                    old(self).state.in_grid(x, y, z) ==> #[trigger] self.state.at(x, y, z) == if x
                        == beat {
                        old(self).next_cell(beat as int, y, z) - old(self).hand_landings(
                            beat - 1,
                            hand as int,
                            y,
                            z,
                        )
                    } else {
                        old(self).state.at(x, y, z) as int
                    },
                old(self).next_state_fits(beat as int) ==> forall|y: int, z: int|
                    0 <= y < hands && 0 <= z < gsl ==> #[trigger] old(self).next_cell(beat as int, y, z)
                        <= usize::MAX,
            decreases hands - hand,
        {
            let mut slot: usize = 0;
            while slot < maxocc
                invariant
                    self.wf(),
                    old(self).wf(),
                    self.config == old(self).config,
                    self.limits == old(self).limits,
                    self.l_target == old(self).l_target,
                    self.patterns == old(self).patterns,
                    self.patterns_found == old(self).patterns_found,
                    self.throws_left == old(self).throws_left,
                    self.holes == old(self).holes,
                    self.throw_to == old(self).throw_to,
                    self.throw_value == old(self).throw_value,
                    self.mp_filter == old(self).mp_filter,
                    self.connections == old(self).connections,
                    self.starting_sequence == old(self).starting_sequence,
                    self.ending_sequence == old(self).ending_sequence,
                    hands == self.config.hands,
                    maxocc == self.config.max_occupancy,
                    gsl == self.config.ground_state_length,
                    1 <= beat <= self.config.l_max,
                    hand < hands,
                    slot <= maxocc,
                    self.state.d0 == old(self).state.d0,
                    self.state.d1 == old(self).state.d1,
                    self.state.d2 == old(self).state.d2,
                    forall|k: int| 0 <= k < slot ==> #[trigger] self.throw_value.at(beat - 1, hand as int, k) != 0,
                    old(self).next_state_fits(beat as int) ==> forall|y: int, z: int|
                        0 <= y < hands && 0 <= z < gsl ==> #[trigger] old(self).next_cell(beat as int, y, z)
                            <= usize::MAX,
                    forall|x: int, y: int, z: int|
                        old(self).state.in_grid(x, y, z) ==> #[trigger] self.state.at(x, y, z) == if x
                            == beat {
                            old(self).next_cell(beat as int, y, z) - old(self).hand_landings(
                                beat - 1,
                                hand + 1,
                                y,
                                z,
                            ) - old(self).slot_landings(beat - 1, hand as int, slot as int, y, z)
                        } else {
                            old(self).state.at(x, y, z) as int
                        },
                ensures
                    self.wf(),
                    self.state.d0 == old(self).state.d0,
                    self.state.d1 == old(self).state.d1,
                    self.state.d2 == old(self).state.d2,
                    forall|x: int, y: int, z: int|
                        old(self).state.in_grid(x, y, z) ==> #[trigger] self.state.at(x, y, z) == if x
                            == beat {
                            old(self).next_cell(beat as int, y, z) - old(self).hand_landings(
                                beat - 1,
                                hand + 1,
                                y,
                                z,
                            )
                        } else {
                            old(self).state.at(x, y, z) as int
                        },
                decreases maxocc - slot,
            {
                let value = self.throw_value.get(beat - 1, hand, slot);
                if value == 0 {
                    break;
                }
                let target = self.throw_to.get(beat - 1, hand, slot);
                proof {
                    lemma_grid_index((beat - 1) as int, hand as int, slot as int, self.throw_to.d0 as int, self.throw_to.d1 as int, self.throw_to.d2 as int);
                }
                if value > gsl {
                    assert(!old(self).next_state_fits(beat as int));
                    return Err(Halt::Internal);
                }
                let cell = self.state.get(beat, target, value - 1);
                if cell == usize::MAX {
                    proof {
                        old(self).lemma_slot_landings_nonneg(beat - 1, hand as int, slot + 1, target as int, value - 1);
                        old(self).lemma_hand_landings_nonneg(beat - 1, hand + 1, target as int, value - 1);
                        assert(old(self).slot_landings(beat - 1, hand as int, slot as int, target as int, value - 1) >= 1);
                        assert(old(self).next_cell(beat as int, target as int, value - 1) > usize::MAX);
                    }
                    return Err(Halt::Internal);
                }
                self.state.set(beat, target, value - 1, cell + 1);
                slot = slot + 1;
            }
            hand = hand + 1;
        }
        Ok(())
    }

    /// Along the positions `scan`, `scan + l_target`, ... of hand `hand` at beat `beat`, no
    /// position holds more than the one a target period earlier.
    spec fn column_ok(&self, beat: int, hand: int, scan: int) -> bool
        decreases self.config.ht - scan,
    {
        if self.l_target == 0 || scan + self.l_target >= self.config.ht {
            true
        } else {
            &&& self.state.at(beat, hand, scan + self.l_target) <= self.state.at(beat, hand, scan)
            &&& self.column_ok(beat, hand, scan + self.l_target)
        }
    }

    /// The states at beats `a` and `b` are the same.
    spec fn same_state(&self, a: int, b: int) -> bool {
        forall|h: int, i: int|
            0 <= h < self.config.hands && 0 <= i < self.config.ground_state_length
                ==> #[trigger] self.state.at(a, h, i) == self.state.at(b, h, i)
    }

    /// What `is_state_valid` checks: a state that repeats with the target period cannot
    /// grow along it; a state on a rhythm beat equal to the first one ends the pattern only
    /// at the target period (with full patterns asked for), and one above it is only
    /// allowed with rotations; and with `fullflag == 2` no earlier rhythm beat has the same
    /// state.
    spec fn state_valid(&self, beat: int) -> bool {
        &&& self.columns_ok(beat)
        &&& self.first_state_ok(beat)
        &&& self.config.fullflag == 2 ==> forall|prior: int|
            1 <= prior < beat && (beat - prior) % (self.config.rhythm_period as int) == 0
                ==> !#[trigger] self.same_state(prior, beat)
    }

    spec fn columns_ok(&self, beat: int) -> bool {
        self.config.ht > self.l_target ==> forall|hand: int, index: int|
            0 <= hand < self.config.hands && 0 <= index < self.l_target ==> #[trigger] self.column_ok(
                beat,
                hand,
                index,
            )
    }

    spec fn first_state_ok(&self, beat: int) -> bool {
        beat % (self.config.rhythm_period as int) == 0 ==> if self.same_state(0, beat) {
            !(self.config.fullflag != 0 && beat != self.l_target)
        } else {
            !(self.config.rotflag == 0 && state_order(self.state, 0, beat) == 1)
        }
    }

    /// Whether the state at `beat` can still lead to a pattern of the target period that
    /// the options ask for.
    fn is_state_valid(&self, beat: usize) -> (r: bool)
        requires
            self.wf(),
            self.searching(),
            beat <= self.l_target,
        ensures
            r == self.state_valid(beat as int),
    {
        let hands = self.config.hands;
        let ht = self.config.ht;
        let lt = self.l_target;
        if ht > lt {
            let mut hand: usize = 0;
            while hand < hands
                invariant
                    self.wf(),
                    self.searching(),
                    hands == self.config.hands,
                    ht == self.config.ht,
                    lt == self.l_target,
                    beat <= lt,
                    ht > lt,
                    hand <= hands,
                    forall|h: int, i: int|
                        0 <= h < hand && 0 <= i < lt ==> #[trigger] self.column_ok(beat as int, h, i),
                decreases hands - hand,
            {
                let mut index: usize = 0;
                while index < lt
                    invariant
                        self.wf(),
                        self.searching(),
                        hands == self.config.hands,
                        ht == self.config.ht,
                        lt == self.l_target,
                        beat <= lt,
                        ht > lt,
                        hand < hands,
                        index <= lt,
                        forall|h: int, i: int|
                            0 <= h < hand && 0 <= i < lt ==> #[trigger] self.column_ok(beat as int, h, i),
                        forall|i: int| 0 <= i < index ==> #[trigger] self.column_ok(beat as int, hand as int, i),
                    decreases lt - index,
                {
                    let mut scan = index;
                    while scan < ht - lt
                        invariant
                            self.wf(),
                            self.searching(),
                            hands == self.config.hands,
                            ht == self.config.ht,
                            lt == self.l_target,
                            beat <= lt,
                            ht > lt,
                            hand < hands,
                            lt >= 1,
                            index < lt,
                            self.column_ok(beat as int, hand as int, index as int) == self.column_ok(
                                beat as int,
                                hand as int,
                                scan as int,
                            ),
                            forall|h: int, i: int|
                                0 <= h < hand && 0 <= i < lt ==> #[trigger] self.column_ok(beat as int, h, i),
                            forall|i: int| 0 <= i < index ==> #[trigger] self.column_ok(beat as int, hand as int, i),
                        decreases ht - scan,
                    {
                        if self.state.get(beat, hand, scan + lt) > self.state.get(beat, hand, scan) {
                            assert(!self.column_ok(beat as int, hand as int, index as int));
                            return false;
                        }
                        scan = scan + lt;
                    }
                    index = index + 1;
                }
                hand = hand + 1;
            }
        }
        if beat % self.config.rhythm_period == 0 {
            if self.states_equal(0, beat) {
                if self.config.fullflag != 0 && beat != lt {
                    return false;
                }
            } else if self.config.rotflag == 0 && self.compare_states(0, beat) == 1 {
                return false;
            }
        }
        assert(self.columns_ok(beat as int));
        assert(self.first_state_ok(beat as int));
        if self.config.fullflag == 2 {
            let mut prior: usize = 1;
            while prior < beat
                invariant
                    self.wf(),
                    self.searching(),
                    beat <= self.l_target,
                    1 <= prior,
                    self.config.fullflag == 2,
                    self.columns_ok(beat as int),
                    self.first_state_ok(beat as int),
                    forall|p: int|
                        1 <= p < prior && (beat - p) % (self.config.rhythm_period as int) == 0
                            ==> !#[trigger] self.same_state(p, beat as int),
                decreases beat - prior,
            {
                if (beat - prior) % self.config.rhythm_period == 0 && self.states_equal(prior, beat) {
                    assert(self.same_state(prior as int, beat as int));
                    return false;
                }
                prior = prior + 1;
            }
        }
        true
    }

    /// The throws of beat `beat` are cleared in hands before `hand` (and in hand `hand`
    /// below slot `slot`): no value, each throw to its own hand; all other throws are as in
    /// `before`.
    spec fn throws_cleared_upto(&self, before: &Self, beat: int, hand: int, slot: int) -> bool {
        &&& self.throw_value.d0 == before.throw_value.d0 && self.throw_value.d1
            == before.throw_value.d1 && self.throw_value.d2 == before.throw_value.d2
        &&& self.throw_to.d0 == before.throw_to.d0 && self.throw_to.d1 == before.throw_to.d1
            && self.throw_to.d2 == before.throw_to.d2
        &&& forall|x: int, y: int, z: int|
            #![trigger self.throw_value.at(x, y, z)]
            before.throw_value.in_grid(x, y, z) ==> self.throw_value.at(x, y, z) == if x == beat
                && (y < hand || (y == hand && z < slot)) {
                0
            } else {
                before.throw_value.at(x, y, z)
            }
        &&& forall|x: int, y: int, z: int|
            #![trigger self.throw_to.at(x, y, z)]
            before.throw_to.in_grid(x, y, z) ==> self.throw_to.at(x, y, z) == if x == beat && (y
                < hand || (y == hand && z < slot)) {
                y as usize
            } else {
                before.throw_to.at(x, y, z)
            }
    }

    /// Every throw of beat `beat` is cleared, and all other throws are as in `before`.
    spec fn throws_cleared(&self, before: &Self, beat: int) -> bool {
        self.throws_cleared_upto(before, beat, self.config.hands as int, 0)
    }

    /// Prepares beat `beat`: its hands have as many throws to make as they hold objects,
    /// and no throw is chosen yet.
    fn start_beat(&mut self, beat: usize)
        requires
            old(self).wf(),
            beat < old(self).config.l_max,
        ensures
            final(self).wf(),
            final(self).config == old(self).config,
            final(self).limits == old(self).limits,
            final(self).l_target == old(self).l_target,
            final(self).patterns == old(self).patterns,
            final(self).patterns_found == old(self).patterns_found,
            final(self).throws_cleared(&*old(self), beat as int),
            final(self).throws_left.d0 == old(self).throws_left.d0,
            final(self).throws_left.d1 == old(self).throws_left.d1,
            final(self).throws_left.d2 == old(self).throws_left.d2,
            forall|x: int, y: int, z: int|
                old(self).throws_left.in_grid(x, y, z) ==> #[trigger] final(self).throws_left.at(x, y, z)
                    == if x == beat {
                    old(self).state.at(beat as int, y, 0)
                } else {
                    old(self).throws_left.at(x, y, z)
                },
            final(self).state == old(self).state,
            final(self).holes == old(self).holes,
            final(self).mp_filter == old(self).mp_filter,
            final(self).connections == old(self).connections,
            final(self).starting_sequence == old(self).starting_sequence,
            final(self).ending_sequence == old(self).ending_sequence,
    {
        let hands = self.config.hands;
        let maxocc = self.config.max_occupancy;
        let mut hand: usize = 0;
        while hand < hands
            invariant
                self.wf(),
                self.config == old(self).config,
                self.limits == old(self).limits,
                self.l_target == old(self).l_target,
                self.patterns == old(self).patterns,
                self.patterns_found == old(self).patterns_found,
                self.state == old(self).state,
                self.holes == old(self).holes,
                self.mp_filter == old(self).mp_filter,
                self.connections == old(self).connections,
                self.starting_sequence == old(self).starting_sequence,
                self.ending_sequence == old(self).ending_sequence,
                old(self).wf(),
                hands == self.config.hands,
                maxocc == self.config.max_occupancy,
                beat < self.config.l_max,
                hand <= hands,
                self.throws_cleared_upto(&*old(self), beat as int, hand as int, 0),
                forall|x: int, y: int, z: int|
                    old(self).throws_left.in_grid(x, y, z) ==> #[trigger] self.throws_left.at(x, y, z)
                        == if x == beat && y < hand {
                        old(self).state.at(beat as int, y, 0)
                    } else {
                        old(self).throws_left.at(x, y, z)
                    },
            decreases hands - hand,
        {
            let held = self.state.get(beat, hand, 0);
            self.throws_left.set(beat, hand, 0, held);
            let mut slot: usize = 0;
            while slot < maxocc
                invariant
                    self.wf(),
                    self.config == old(self).config,
                    self.limits == old(self).limits,
                    self.l_target == old(self).l_target,
                    self.patterns == old(self).patterns,
                    self.patterns_found == old(self).patterns_found,
                    self.state == old(self).state,
                    self.holes == old(self).holes,
                    self.mp_filter == old(self).mp_filter,
                    self.connections == old(self).connections,
                    self.starting_sequence == old(self).starting_sequence,
                    self.ending_sequence == old(self).ending_sequence,
                    old(self).wf(),
                    hands == self.config.hands,
                    maxocc == self.config.max_occupancy,
                    beat < self.config.l_max,
                    hand < hands,
                    slot <= maxocc,
                    self.throws_cleared_upto(&*old(self), beat as int, hand as int, slot as int),
                    forall|x: int, y: int, z: int|
                        old(self).throws_left.in_grid(x, y, z) ==> #[trigger] self.throws_left.at(x, y, z)
                            == if x == beat && y <= hand {
                            old(self).state.at(beat as int, y, 0)
                        } else {
                            old(self).throws_left.at(x, y, z)
                        },
                decreases maxocc - slot,
            {
                self.throw_to.set(beat, hand, slot, hand);
                self.throw_value.set(beat, hand, slot, 0);
                slot = slot + 1;
            }
            assert(self.throws_cleared_upto(&*old(self), beat as int, hand as int + 1, 0));
            hand = hand + 1;
        }
    }
}

} // verus!

verus! {

pub open spec fn count_false(s: Seq<bool>) -> nat
    decreases s.len(),
{
    if s.len() == 0 {
        0
    } else {
        count_false(s.drop_last()) + if s.last() {
            0nat
        } else {
            1nat
        }
    }
}

proof fn lemma_count_false_set(s: Seq<bool>, i: int)
    requires
        0 <= i < s.len(),
        !s[i],
    ensures
        count_false(s.update(i, true)) + 1 == count_false(s),
    decreases s.len(),
{
    if i < s.len() - 1 {
        assert(s.update(i, true).drop_last() =~= s.drop_last().update(i, true));
        lemma_count_false_set(s.drop_last(), i);
    } else {
        assert(s.update(i, true).drop_last() =~= s.drop_last());
    }
}

impl SiteswapGenerator {
    /// The position of an entry of the multiplexing filter in its table.
    spec fn mp_at(&self, a: int, b: int, c: int) -> int {
        crate::grid::grid_index(a, b, c, self.mp_filter.d1 as int, self.mp_filter.d2 as int)
    }

    /// The filter entries `d` with hand `hand` of beat `beat + 1` taking, from position
    /// `index` on, the entries of beat `beat` one position higher.
    spec fn mp_shift_from(&self, d: Seq<MpEntry>, beat: int, hand: int, index: int) -> Seq<MpEntry>
        decreases self.config.slot_size - index,
    {
        if index < 0 || index + 1 >= self.config.slot_size {
            d
        } else {
            self.mp_shift_from(
                d.update(self.mp_at(beat + 1, hand, index), d[self.mp_at(beat, hand, index + 1)]),
                beat,
                hand,
                index + 1,
            )
        }
    }

    /// The filter entries `d` after the hands from `hand` on move their entries on from beat
    /// `beat` to beat `beat + 1` (the top position emptied, and the entry that leaves at
    /// the bottom added back a target period higher), and whether no entry refused.
    spec fn mp_move_on(&self, d: Seq<MpEntry>, beat: int, hand: int) -> (Seq<MpEntry>, bool)
        decreases self.config.hands - hand,
    {
        if hand < 0 || hand >= self.config.hands {
            (d, true)
        } else {
            let ss = self.config.slot_size as int;
            let lt = self.l_target as int;
            let d1 = self.mp_shift_from(d, beat, hand, 0);
            let top = d1[self.mp_at(beat + 1, hand, ss - 1)];
            let d2 = d1.update(self.mp_at(beat + 1, hand, ss - 1), MpEntry { kind: MP_EMPTY, ..top });
            let shifted = d2[self.mp_at(beat, hand, 0)];
            let added = mp_add(d2[self.mp_at(beat + 1, hand, lt - 1)], hand, shifted.kind, shifted.value, shifted.from, 2);
            let d3 = d2.update(self.mp_at(beat + 1, hand, lt - 1), added.0);
            if added.1 {
                (d3, false)
            } else {
                self.mp_move_on(d3, beat, hand + 1)
            }
        }
    }

    /// The filter entries `d` after the throws of hand `hand` on beat `beat`, from slot
    /// `slot` up to the first empty one, are added where they land; with 0 when every one
    /// was accepted, 1 when one was refused, 2 when one lands outside the filter.
    spec fn mp_add_slots(&self, d: Seq<MpEntry>, beat: int, hand: int, slot: int) -> (Seq<MpEntry>, int)
        decreases self.config.max_occupancy - slot,
    {
        if slot < 0 || slot >= self.config.max_occupancy || self.throw_value.at(beat, hand, slot) == 0 {
            (d, 0)
        } else {
            let value = self.throw_value.at(beat, hand, slot) as int;
            let target = self.throw_to.at(beat, hand, slot) as int;
            if value > self.config.slot_size {
                (d, 2)
            } else {
                let added = mp_add(d[self.mp_at(beat + 1, target, value - 1)], target, MP_THROW, value as i32, hand as i32, 2);
                let d1 = d.update(self.mp_at(beat + 1, target, value - 1), added.0);
                if added.1 {
                    (d1, 1)
                } else {
                    self.mp_add_slots(d1, beat, hand, slot + 1)
                }
            }
        }
    }

    /// The filter entries `d` after the throws of the hands from `hand` on, on beat `beat`,
    /// are added (see `mp_add_slots`).
    spec fn mp_add_hands(&self, d: Seq<MpEntry>, beat: int, hand: int) -> (Seq<MpEntry>, int)
        decreases self.config.hands - hand,
    {
        if hand < 0 || hand >= self.config.hands {
            (d, 0)
        } else {
            let w = self.mp_add_slots(d, beat, hand, 0);
            if w.1 != 0 {
                w
            } else {
                self.mp_add_hands(w.0, beat, hand + 1)
            }
        }
    }

    /// Moves the multiplexing filter on by one beat and adds the throws of `beat`; false
    /// when a landing slot would clump.
    fn is_multiplexing_valid(&mut self, beat: usize) -> (r: Result<bool, Halt>)
        requires
            old(self).wf(),
            old(self).searching(),
            old(self).config.mpflag != 0,
            beat < old(self).l_target,
        ensures
            final(self).wf(),
            final(self).config == old(self).config,
            final(self).limits == old(self).limits,
            final(self).l_target == old(self).l_target,
            final(self).patterns == old(self).patterns,
            final(self).patterns_found == old(self).patterns_found,
            final(self).state == old(self).state,
            final(self).throws_left == old(self).throws_left,
            final(self).holes == old(self).holes,
            final(self).throw_to == old(self).throw_to,
            final(self).throw_value == old(self).throw_value,
            final(self).connections == old(self).connections,
            final(self).starting_sequence == old(self).starting_sequence,
            final(self).ending_sequence == old(self).ending_sequence,
            r is Ok || r is Err && r->Err_0 is Internal,
            final(self).mp_filter.d0 == old(self).mp_filter.d0,
            final(self).mp_filter.d1 == old(self).mp_filter.d1,
            final(self).mp_filter.d2 == old(self).mp_filter.d2,
            ({
                let moved = old(self).mp_move_on(old(self).mp_filter.data@, beat as int, 0);
                if !moved.1 {
                    r == Ok::<bool, Halt>(false) && final(self).mp_filter.data@ == moved.0
                } else {
                    let added = old(self).mp_add_hands(moved.0, beat as int, 0);
                    &&& final(self).mp_filter.data@ == added.0
                    &&& r == (if added.1 == 0 {
                        Ok::<bool, Halt>(true)
                    } else if added.1 == 1 {
                        Ok::<bool, Halt>(false)
                    } else {
                        Err::<bool, Halt>(Halt::Internal)
                    })
                }
            }),
    {
        let hands = self.config.hands;
        let slot_size = self.config.slot_size;
        let maxocc = self.config.max_occupancy;
        let lt = self.l_target;
        let ghost d0 = self.mp_filter.data@;
        let mut hand: usize = 0;
        while hand < hands
            invariant
                self.wf(),
                old(self).wf(),
                self.searching(),
                self.config.mpflag != 0,
                self.config == old(self).config,
                self.limits == old(self).limits,
                self.l_target == old(self).l_target,
                self.patterns == old(self).patterns,
                self.patterns_found == old(self).patterns_found,
                self.state == old(self).state,
                self.throws_left == old(self).throws_left,
                self.holes == old(self).holes,
                self.throw_to == old(self).throw_to,
                self.throw_value == old(self).throw_value,
                self.connections == old(self).connections,
                self.starting_sequence == old(self).starting_sequence,
                self.ending_sequence == old(self).ending_sequence,
                self.mp_filter.d0 == old(self).mp_filter.d0,
                self.mp_filter.d1 == old(self).mp_filter.d1,
                self.mp_filter.d2 == old(self).mp_filter.d2,
                hands == self.config.hands,
                slot_size == self.config.slot_size,
                lt == self.l_target,
                beat < lt,
                hand <= hands,
                d0 == old(self).mp_filter.data@,
                old(self).mp_move_on(d0, beat as int, 0) == old(self).mp_move_on(
                    self.mp_filter.data@,
                    beat as int,
                    hand as int,
                ),
            decreases hands - hand,
        {
            let ghost dh = self.mp_filter.data@;
            let mut index: usize = 0;
            while index + 1 < slot_size
                invariant
                    self.wf(),
                    old(self).wf(),
                    self.searching(),
                    self.config.mpflag != 0,
                    self.config == old(self).config,
                    self.limits == old(self).limits,
                    self.l_target == old(self).l_target,
                    self.patterns == old(self).patterns,
                    self.patterns_found == old(self).patterns_found,
                    self.state == old(self).state,
                    self.throws_left == old(self).throws_left,
                    self.holes == old(self).holes,
                    self.throw_to == old(self).throw_to,
                    self.throw_value == old(self).throw_value,
                    self.connections == old(self).connections,
                    self.starting_sequence == old(self).starting_sequence,
                    self.ending_sequence == old(self).ending_sequence,
                    self.mp_filter.d0 == old(self).mp_filter.d0,
                    self.mp_filter.d1 == old(self).mp_filter.d1,
                    self.mp_filter.d2 == old(self).mp_filter.d2,
                    hands == self.config.hands,
                    slot_size == self.config.slot_size,
                    lt == self.l_target,
                    beat < lt,
                    hand < hands,
                    index < slot_size,
                    old(self).mp_shift_from(dh, beat as int, hand as int, 0) == old(self).mp_shift_from(
                        self.mp_filter.data@,
                        beat as int,
                        hand as int,
                        index as int,
                    ),
                decreases slot_size - index,
            {
                let e = self.mp_filter.get(beat, hand, index + 1);
                self.mp_filter.set(beat + 1, hand, index, e);
                index = index + 1;
            }
            let last = self.mp_filter.get(beat + 1, hand, slot_size - 1);
            self.mp_filter.set(beat + 1, hand, slot_size - 1, MpEntry { kind: MP_EMPTY, ..last });
            let shifted = self.mp_filter.get(beat, hand, 0);
            let hold = self.holdthrow(hand);
            let mut entry = self.mp_filter.get(beat + 1, hand, lt - 1);
            let refused = add_throw_mp_filter(
                &mut entry,
                hand,
                shifted.kind,
                shifted.value,
                shifted.from,
                hold,
            );
            self.mp_filter.set(beat + 1, hand, lt - 1, entry);
            if refused {
                return Ok(false);
            }
            hand = hand + 1;
        }
        let ghost d1 = self.mp_filter.data@;
        let mut hand: usize = 0;
        while hand < hands
            invariant
                self.wf(),
                old(self).wf(),
                self.searching(),
                self.config.mpflag != 0,
                self.config == old(self).config,
                self.limits == old(self).limits,
                self.l_target == old(self).l_target,
                self.patterns == old(self).patterns,
                self.patterns_found == old(self).patterns_found,
                self.state == old(self).state,
                self.throws_left == old(self).throws_left,
                self.holes == old(self).holes,
                self.throw_to == old(self).throw_to,
                self.throw_value == old(self).throw_value,
                self.connections == old(self).connections,
                self.starting_sequence == old(self).starting_sequence,
                self.ending_sequence == old(self).ending_sequence,
                self.mp_filter.d0 == old(self).mp_filter.d0,
                self.mp_filter.d1 == old(self).mp_filter.d1,
                self.mp_filter.d2 == old(self).mp_filter.d2,
                hands == self.config.hands,
                slot_size == self.config.slot_size,
                maxocc == self.config.max_occupancy,
                lt == self.l_target,
                beat < lt,
                hand <= hands,
                old(self).mp_add_hands(d1, beat as int, 0) == old(self).mp_add_hands(
                    self.mp_filter.data@,
                    beat as int,
                    hand as int,
                ),
                d0 == old(self).mp_filter.data@,
                old(self).mp_move_on(d0, beat as int, 0) == (d1, true),
            decreases hands - hand,
        {
            let ghost dh = self.mp_filter.data@;
            let mut slot: usize = 0;
            while slot < maxocc
                invariant
                    self.wf(),
                    old(self).wf(),
                    self.searching(),
                    self.config.mpflag != 0,
                    self.config == old(self).config,
                    self.limits == old(self).limits,
                    self.l_target == old(self).l_target,
                    self.patterns == old(self).patterns,
                    self.patterns_found == old(self).patterns_found,
                    self.state == old(self).state,
                    self.throws_left == old(self).throws_left,
                    self.holes == old(self).holes,
                    self.throw_to == old(self).throw_to,
                    self.throw_value == old(self).throw_value,
                    self.connections == old(self).connections,
                    self.starting_sequence == old(self).starting_sequence,
                    self.ending_sequence == old(self).ending_sequence,
                    self.mp_filter.d0 == old(self).mp_filter.d0,
                    self.mp_filter.d1 == old(self).mp_filter.d1,
                    self.mp_filter.d2 == old(self).mp_filter.d2,
                    hands == self.config.hands,
                    slot_size == self.config.slot_size,
                    maxocc == self.config.max_occupancy,
                    lt == self.l_target,
                    beat < lt,
                    hand < hands,
                    slot <= maxocc,
                    old(self).mp_add_slots(dh, beat as int, hand as int, 0) == old(self).mp_add_slots(
                        self.mp_filter.data@,
                        beat as int,
                        hand as int,
                        slot as int,
                    ),
                    d0 == old(self).mp_filter.data@,
                    old(self).mp_move_on(d0, beat as int, 0) == (d1, true),
                    old(self).mp_add_hands(d1, beat as int, 0) == old(self).mp_add_hands(dh, beat as int, hand as int),
                ensures
                    self.wf(),
                    self.mp_filter.d0 == old(self).mp_filter.d0,
                    self.mp_filter.d1 == old(self).mp_filter.d1,
                    self.mp_filter.d2 == old(self).mp_filter.d2,
                    self.config == old(self).config,
                    self.limits == old(self).limits,
                    self.l_target == old(self).l_target,
                    self.patterns == old(self).patterns,
                    self.patterns_found == old(self).patterns_found,
                    self.state == old(self).state,
                    self.throws_left == old(self).throws_left,
                    self.holes == old(self).holes,
                    self.throw_to == old(self).throw_to,
                    self.throw_value == old(self).throw_value,
                    self.connections == old(self).connections,
                    self.starting_sequence == old(self).starting_sequence,
                    self.ending_sequence == old(self).ending_sequence,
                    old(self).mp_add_slots(dh, beat as int, hand as int, 0) == (self.mp_filter.data@, 0int),
                decreases maxocc - slot,
            {
                let value = self.throw_value.get(beat, hand, slot);
                if value == 0 {
                    break;
                }
                let target = self.throw_to.get(beat, hand, slot);
                proof {
                    lemma_grid_index(beat as int, hand as int, slot as int, self.throw_to.d0 as int, self.throw_to.d1 as int, self.throw_to.d2 as int);
                }
                if value > slot_size {
                    return Err(Halt::Internal);
                }
                let hold = self.holdthrow(target);
                let mut entry = self.mp_filter.get(beat + 1, target, value - 1);
                let refused = add_throw_mp_filter(
                    &mut entry,
                    target,
                    MP_THROW,
                    value as i32,
                    hand as i32,
                    hold,
                );
                self.mp_filter.set(beat + 1, target, value - 1, entry);
                if refused {
                    return Ok(false);
                }
                slot = slot + 1;
            }
            hand = hand + 1;
        }
        Ok(true)
    }

    /// Whether some excluded expression matches the text.
    fn excluded_match(&self, pattern: &Vec<char>) -> (r: bool)
        ensures
            r <==> exists|i: int|
                0 <= i < self.config.exclude.len() && regex_matches(
                    #[trigger] self.config.exclude@[i]@,
                    pattern@,
                ),
    {
        let mut i: usize = 0;
        while i < self.config.exclude.len()
            invariant
                i <= self.config.exclude.len(),
                forall|j: int|
                    0 <= j < i ==> !regex_matches(#[trigger] self.config.exclude@[j]@, pattern@),
            decreases self.config.exclude.len() - i,
        {
            if regex_is_match(&self.config.exclude[i], pattern) {
                return true;
            }
            i = i + 1;
        }
        false
    }

    /// Whether some required expression does not match the text.
    fn required_miss(&self, pattern: &Vec<char>) -> (r: bool)
        ensures
            r <==> exists|i: int|
                0 <= i < self.config.require.len() && !regex_matches(
                    #[trigger] self.config.require@[i]@,
                    pattern@,
                ),
    {
        let mut i: usize = 0;
        while i < self.config.require.len()
            invariant
                i <= self.config.require.len(),
                forall|j: int|
                    0 <= j < i ==> regex_matches(#[trigger] self.config.require@[j]@, pattern@),
            decreases self.config.require.len() - i,
        {
            if !regex_is_match(&self.config.require[i], pattern) {
                return true;
            }
            i = i + 1;
        }
        false
    }

    /// Slot `slot` of hand `hand` on beat `beat` repeats the throw of slot `previous`.
    spec fn repeats(&self, beat: int, hand: int, slot: int, previous: int) -> bool {
        &&& self.throw_value.at(beat, hand, slot) == self.throw_value.at(beat, hand, previous)
        &&& self.throw_to.at(beat, hand, slot) == self.throw_to.at(beat, hand, previous)
    }

    /// Among the throws that hand `hand` makes on beat `beat` (the slots up to the first
    /// empty one, on a beat of its rhythm), none repeats an earlier one.
    spec fn hand_without_repeats(&self, beat: int, hand: int) -> bool {
        self.rhythm_at(beat, hand) != 0 ==> forall|slot: int, previous: int|
            0 <= previous < slot < self.config.max_occupancy && (forall|k: int|
                0 <= k <= slot ==> #[trigger] self.throw_value.at(beat, hand, k) != 0)
                ==> !#[trigger] self.repeats(beat, hand, slot, previous)
    }

    /// With clustered multiplexes refused, no hand repeats a throw on beat `beat`.
    spec fn no_repeated_throws(&self, beat: int) -> bool {
        !self.config.mp_clustered_flag ==> forall|hand: int|
            0 <= hand < self.config.hands ==> #[trigger] self.hand_without_repeats(beat, hand)
    }

    /// How many of the hands before `upto` throw on `beat`.
    spec fn throwing_hands(&self, beat: int, upto: int) -> nat
        decreases upto,
    {
        if upto <= 0 {
            0
        } else {
            self.throwing_hands(beat, upto - 1) + if self.rhythm_at(beat, upto - 1) != 0 {
                1nat
            } else {
                0nat
            }
        }
    }

    /// Each hand that throws on `beat` holds exactly one object, unless it is the leader's.
    spec fn delay_throwers_ok(&self, beat: int) -> bool {
        forall|h: int|
            0 <= h < self.config.hands && #[trigger] self.rhythm_at(beat, h) != 0 ==> self.state.at(
                beat,
                h,
                0,
            ) == 1 || self.person_of(h) == self.config.leader_person
    }

    /// The catches of the ground pattern at position `i` after `beat` in the hands before
    /// `h`: each a hand and a throw height `i + 1`.
    spec fn ground_row(&self, beat: int, i: int, h: int) -> Seq<(int, int)>
        decreases h,
    {
        if h <= 0 {
            Seq::empty()
        } else {
            self.ground_row(beat, i, h - 1) + if self.rhythm_at(beat + 1 + i, h - 1) != 0 {
                seq![(h - 1, i + 1)]
            } else {
                Seq::empty()
            }
        }
    }

    /// The catches of the ground pattern at the positions before `i` after `beat`, position
    /// by position, each in hand order.
    spec fn ground_places(&self, beat: int, i: int) -> Seq<(int, int)>
        decreases i,
    {
        if i <= 0 {
            Seq::empty()
        } else {
            self.ground_places(beat, i - 1) + self.ground_row(beat, i - 1, self.config.hands as int)
        }
    }

    /// The throws of the ground pattern that the throwing hands of `beat` make, the last
    /// of the first `n` catches first (a hand, then a height); 0 where there is none.
    spec fn ground_throw(&self, beat: int, b: int) -> (int, int) {
        let places = self.ground_places(beat, self.config.ht as int);
        let n = self.config.n as int;
        if 0 <= b < n && b < self.throwing_hands(beat, self.config.hands as int) {
            places[n - 1 - b]
        } else {
            (0, 0)
        }
    }

    proof fn lemma_ground_row_prefix(&self, beat: int, i: int, h: int)
        requires
            0 <= h <= self.config.hands,
        ensures
            self.ground_row(beat, i, h).len() <= self.ground_row(beat, i, self.config.hands as int).len(),
            forall|q: int|
                0 <= q < self.ground_row(beat, i, h).len() ==> #[trigger] self.ground_row(
                    beat,
                    i,
                    self.config.hands as int,
                )[q] == self.ground_row(beat, i, h)[q],
        decreases self.config.hands - h,
    {
        if h < self.config.hands {
            self.lemma_ground_row_prefix(beat, i, h + 1);
            assert(self.ground_row(beat, i, h + 1) == self.ground_row(beat, i, h) + if self.rhythm_at(
                beat + 1 + i,
                h,
            ) != 0 {
                seq![(h, i + 1)]
            } else {
                Seq::<(int, int)>::empty()
            });
        }
    }

    proof fn lemma_ground_places_prefix(&self, beat: int, i: int, j: int)
        requires
            0 <= i <= j,
        ensures
            self.ground_places(beat, i).len() <= self.ground_places(beat, j).len(),
            forall|q: int|
                0 <= q < self.ground_places(beat, i).len() ==> #[trigger] self.ground_places(beat, j)[q]
                    == self.ground_places(beat, i)[q],
        decreases j - i,
    {
        if i < j {
            self.lemma_ground_places_prefix(beat, i, j - 1);
            assert(self.ground_places(beat, j) == self.ground_places(beat, j - 1) + self.ground_row(
                beat,
                j - 1,
                self.config.hands as int,
            ));
        }
    }

    /// The first of the throws `b..bt` that goes to hand `to` with height `value`, or `bt`.
    spec fn first_match(bh: Seq<usize>, bv: Seq<usize>, bt: int, to: int, value: int, b: int) -> int
        decreases bt - b,
    {
        if b >= bt {
            bt
        } else if bh[b] == to && bv[b] == value {
            b
        } else {
            Self::first_match(bh, bv, bt, to, value, b + 1)
        }
    }

    /// Every hand from `h` on that holds objects and is not the leader's makes one of the
    /// throws `bh`/`bv` still unused (the first such is used up).
    spec fn leader_matching(&self, beat: int, h: int, bh: Seq<usize>, bv: Seq<usize>, bt: int) -> bool
        decreases self.config.hands - h,
    {
        if h < 0 || h >= self.config.hands {
            true
        } else if self.state.at(beat, h, 0) == 0 || self.person_of(h) == self.config.leader_person {
            self.leader_matching(beat, h + 1, bh, bv, bt)
        } else {
            let b = Self::first_match(
                bh,
                bv,
                bt,
                self.throw_to.at(beat, h, 0) as int,
                self.throw_value.at(beat, h, 0) as int,
                0,
            );
            b < bt && self.leader_matching(beat, h + 1, bh, bv.update(b, 0usize), bt)
        }
    }

    /// In the first beats of a passing delay: only the leader's hands may hold other than
    /// one object, the ground pattern has its `n` catches within reach, and the other
    /// hands throw what the ground pattern throws.
    spec fn delay_ok(&self, beat: int) -> bool {
        let hands = self.config.hands as int;
        &&& self.delay_throwers_ok(beat)
        &&& self.ground_places(beat, self.config.ht as int).len() >= self.config.n
        &&& self.leader_matching(
            beat,
            0,
            Seq::new(hands as nat, |b: int| self.ground_throw(beat, b).0 as usize),
            Seq::new(hands as nat, |b: int| self.ground_throw(beat, b).1 as usize),
            self.throwing_hands(beat, hands) as int,
        )
    }

    /// Whether the throws of `beat` are allowed: no excluded expression matches the pattern
    /// so far, no multiplex repeats a throw unless clustering is allowed, and in the first
    /// beats of a passing delay only the leader changes what the ground pattern throws.
    fn are_throws_valid(&self, beat: usize, pattern: &Vec<char>) -> (r: Result<bool, Halt>)
        requires
            self.wf(),
            self.searching(),
            beat < self.l_target,
        ensures
            r matches Ok(true) ==> forall|i: int|
                0 <= i < self.config.exclude.len() ==> !regex_matches(
                    #[trigger] self.config.exclude@[i]@,
                    pattern@,
                ),
            r matches Ok(true) ==> self.no_repeated_throws(beat as int),
            r is Err ==> r->Err_0 is Internal && self.config.max_occupancy == 0,
            self.config.max_occupancy != 0 ==> r is Ok,
            self.config.jugglers > 1 && beat < self.config.delaytime ==> (r matches Ok(v) ==> v == (
            (forall|i: int|
                0 <= i < self.config.exclude.len() ==> !regex_matches(
                    #[trigger] self.config.exclude@[i]@,
                    pattern@,
                )) && self.no_repeated_throws(beat as int) && self.delay_ok(beat as int))),
            !(self.config.jugglers > 1 && beat < self.config.delaytime) ==> r == Ok::<bool, Halt>(
                (forall|i: int|
                    0 <= i < self.config.exclude.len() ==> !regex_matches(
                        #[trigger] self.config.exclude@[i]@,
                        pattern@,
                    )) && self.no_repeated_throws(beat as int),
            ),
    {
        if self.excluded_match(pattern) {
            return Ok(false);
        }
        let hands = self.config.hands;
        let maxocc = self.config.max_occupancy;
        if !self.config.mp_clustered_flag {
            let mut hand: usize = 0;
            while hand < hands
                invariant
                    self.wf(),
                    self.searching(),
                    beat < self.l_target,
                    hands == self.config.hands,
                    maxocc == self.config.max_occupancy,
                    hand <= hands,
                    !self.config.mp_clustered_flag,
                    forall|h: int| 0 <= h < hand ==> #[trigger] self.hand_without_repeats(beat as int, h),
                decreases hands - hand,
            {
                if self.rhythm(beat, hand, 0) != 0 {
                    let mut slot: usize = 0;
                    while slot < maxocc && self.throw_value.get(beat, hand, slot) != 0
                        invariant
                            self.wf(),
                            self.searching(),
                            beat < self.l_target,
                            hands == self.config.hands,
                            maxocc == self.config.max_occupancy,
                            hand < hands,
                            slot <= maxocc,
                            forall|k: int| 0 <= k < slot ==> #[trigger] self.throw_value.at(beat as int, hand as int, k) != 0,
                            forall|s2: int, p: int|
                                0 <= p < s2 < slot ==> !#[trigger] self.repeats(beat as int, hand as int, s2, p),
                            self.rhythm_at(beat as int, hand as int) != 0,
                            !self.config.mp_clustered_flag,
                        decreases maxocc - slot,
                    {
                        let mut previous: usize = 0;
                        while previous < slot
                            invariant
                                self.wf(),
                                self.searching(),
                                beat < self.l_target,
                                hands == self.config.hands,
                                maxocc == self.config.max_occupancy,
                                hand < hands,
                                slot < maxocc,
                                previous <= slot,
                                forall|p: int| 0 <= p < previous ==> !#[trigger] self.repeats(beat as int, hand as int, slot as int, p),
                                self.rhythm_at(beat as int, hand as int) != 0,
                                !self.config.mp_clustered_flag,
                                forall|k: int| 0 <= k <= slot ==> #[trigger] self.throw_value.at(beat as int, hand as int, k) != 0,
                            decreases slot - previous,
                        {
                            if self.throw_value.get(beat, hand, slot) == self.throw_value.get(
                                beat,
                                hand,
                                previous,
                            ) && self.throw_to.get(beat, hand, slot) == self.throw_to.get(
                                beat,
                                hand,
                                previous,
                            ) {
                                assert(self.repeats(beat as int, hand as int, slot as int, previous as int));
                                assert(!self.hand_without_repeats(beat as int, hand as int));
                                return Ok(false);
                            }
                            previous = previous + 1;
                        }
                        slot = slot + 1;
                    }
                    assert forall|s2: int, p: int|
                        0 <= p < s2 < maxocc && (forall|k: int|
                            0 <= k <= s2 ==> #[trigger] self.throw_value.at(beat as int, hand as int, k) != 0)
                            implies !#[trigger] self.repeats(beat as int, hand as int, s2, p) by {
                        if s2 >= slot {
                            assert(self.throw_value.at(beat as int, hand as int, slot as int) != 0);
                        }
                    }
                }
                assert(self.hand_without_repeats(beat as int, hand as int));
                hand = hand + 1;
            }
        }
        assert(self.no_repeated_throws(beat as int));
        if self.config.jugglers > 1 && beat < self.config.delaytime {
            if maxocc == 0 {
                return Err(Halt::Internal);
            }
            let mut balls_thrown: usize = 0;
            let mut hand: usize = 0;
            while hand < hands
                invariant
                    self.wf(),
                    self.searching(),
                    beat < self.l_target,
                    self.config.jugglers > 1 && beat < self.config.delaytime,
                    hands == self.config.hands,
                    hand <= hands,
                    balls_thrown <= hand,
                    balls_thrown == self.throwing_hands(beat as int, hand as int),
                    forall|h: int|
                        0 <= h < hand && #[trigger] self.rhythm_at(beat as int, h) != 0 ==> self.state.at(
                            beat as int,
                            h,
                            0,
                        ) == 1 || self.person_of(h) == self.config.leader_person,
                decreases hands - hand,
            {
                if self.rhythm(beat, hand, 0) != 0 {
                    balls_thrown = balls_thrown + 1;
                    if self.state.get(beat, hand, 0) != 1 && self.person_number(hand)
                        != self.config.leader_person {
                        assert(!self.delay_throwers_ok(beat as int)) by {
                            assert(self.rhythm_at(beat as int, hand as int) != 0);
                        }
                        return Ok(false);
                    }
                }
                hand = hand + 1;
            }
            assert(self.delay_throwers_ok(beat as int));
            let ghost bt = balls_thrown as int;
            let mut base_hands: Vec<usize> = Vec::new();
            let mut base_values: Vec<usize> = Vec::new();
            let mut k: usize = 0;
            while k < hands
                invariant
                    k <= hands,
                    base_hands.len() == k,
                    base_values.len() == k,
                    forall|b: int| 0 <= b < k ==> base_hands@[b] == 0 && base_values@[b] == 0,
                decreases hands - k,
            {
                base_hands.push(0);
                base_values.push(0);
                k = k + 1;
            }
            let mut balls_left = self.config.n;
            let ht = self.config.ht;
            let ghost n = self.config.n as int;
            let ghost all = self.ground_places(beat as int, ht as int);
            let ghost mut placed: Seq<(int, int)> = Seq::empty();
            let mut index: usize = 0;
            let mut done = false;
            while index < ht && !done
                invariant
                    self.wf(),
                    self.searching(),
                    beat < self.l_target,
                    self.config.jugglers > 1 && beat < self.config.delaytime,
                    hands == self.config.hands,
                    ht == self.config.ht,
                    n == self.config.n,
                    all == self.ground_places(beat as int, ht as int),
                    balls_thrown == bt,
                    bt == self.throwing_hands(beat as int, hands as int),
                    balls_thrown <= hands,
                    base_hands.len() == hands,
                    base_values.len() == hands,
                    index <= ht,
                    balls_left == n - placed.len(),
                    !done ==> placed == self.ground_places(beat as int, index as int) && balls_left >= 1,
                    done ==> balls_left == 0 && placed.len() <= all.len() && placed == all.take(
                        placed.len() as int,
                    ),
                    forall|b: int|
                        0 <= b < hands ==> if b < bt && balls_left <= b < n {
                            base_hands@[b] == placed[n - 1 - b].0 && base_values@[b] == placed[n
                                - 1 - b].1
                        } else {
                            base_hands@[b] == 0 && base_values@[b] == 0
                        },
                decreases ht - index, if done { 0int } else { 1int },
            {
                let mut hand: usize = 0;
                while hand < hands && !done
                    invariant
                        self.wf(),
                        self.searching(),
                        beat < self.l_target,
                        hands == self.config.hands,
                        ht == self.config.ht,
                        n == self.config.n,
                        all == self.ground_places(beat as int, ht as int),
                        balls_thrown == bt,
                        balls_thrown <= hands,
                        base_hands.len() == hands,
                        base_values.len() == hands,
                        index < ht,
                        hand <= hands,
                        balls_left == n - placed.len(),
                        !done ==> placed == self.ground_places(beat as int, index as int) + self.ground_row(
                            beat as int,
                            index as int,
                            hand as int,
                        ) && balls_left >= 1,
                        done ==> balls_left == 0 && placed.len() <= all.len() && placed == all.take(
                            placed.len() as int,
                        ),
                        forall|b: int|
                            0 <= b < hands ==> if b < bt && balls_left <= b < n {
                                base_hands@[b] == placed[n - 1 - b].0 && base_values@[b] == placed[n
                                    - 1 - b].1
                            } else {
                                base_hands@[b] == 0 && base_values@[b] == 0
                            },
                    decreases hands - hand,
                {
                    let ghost before = placed;
                    if self.rhythm(beat + 1, hand, index) != 0 {
                        proof {
                            placed = placed.push((hand as int, index as int + 1));
                        }
                        balls_left = balls_left - 1;
                        if balls_left < balls_thrown {
                            base_hands.set(balls_left, hand);
                            base_values.set(balls_left, index + 1);
                        }
                        if balls_left == 0 {
                            done = true;
                            proof {
                                self.lemma_ground_row_prefix(beat as int, index as int, hand as int + 1);
                                self.lemma_ground_places_prefix(beat as int, index as int + 1, ht as int);
                                let g = self.ground_places(beat as int, index as int);
                                let r1 = self.ground_row(beat as int, index as int, hand as int + 1);
                                let r = self.ground_row(beat as int, index as int, hands as int);
                                let g1 = self.ground_places(beat as int, index as int + 1);
                                assert(placed =~= g + r1);
                                assert(g1 == g + r);
                                assert forall|q: int| 0 <= q < placed.len() implies placed[q] == all[q] by {
                                    if q < g.len() {
                                        assert(g1[q] == g[q]);
                                    } else {
                                        assert(r[q - g.len()] == r1[q - g.len()]);
                                        assert(g1[q] == r[q - g.len()]);
                                    }
                                    assert(all[q] == g1[q]);
                                }
                                assert(placed =~= all.take(placed.len() as int));
                            }
                        }
                    }
                    proof {
                        if !done {
                            assert(self.ground_row(beat as int, index as int, hand as int + 1)
                                == self.ground_row(beat as int, index as int, hand as int) + if self.rhythm_at(
                                beat + 1 + index,
                                hand as int,
                            ) != 0 {
                                seq![(hand as int, index as int + 1)]
                            } else {
                                Seq::<(int, int)>::empty()
                            });
                            assert(placed =~= self.ground_places(beat as int, index as int) + self.ground_row(
                                beat as int,
                                index as int,
                                hand as int + 1,
                            ));
                        }
                    }
                    hand = hand + 1;
                }
                if !done {
                    proof {
                        assert(self.ground_places(beat as int, index as int + 1) == self.ground_places(
                            beat as int,
                            index as int,
                        ) + self.ground_row(beat as int, index as int, hands as int));
                    }
                    index = index + 1;
                }
            }
            if balls_left != 0 {
                assert(placed == all);
                return Ok(false);
            }
            assert(all.len() >= n);
            let ghost bh = Seq::new(hands as nat, |b: int| self.ground_throw(beat as int, b).0 as usize);
            let ghost bv0 = Seq::new(hands as nat, |b: int| self.ground_throw(beat as int, b).1 as usize);
            proof {
                assert forall|b: int| 0 <= b < hands implies base_hands@[b] == bh[b] && base_values@[b] == bv0[b] by {
                    if b < bt && 0 <= b < n {
                        assert(placed[n - 1 - b] == all[n - 1 - b]);
                    }
                }
                assert(base_hands@ =~= bh);
                assert(base_values@ =~= bv0);
            }
            let mut hand: usize = 0;
            while hand < hands
                invariant
                    self.wf(),
                    self.searching(),
                    beat < self.l_target,
                    self.config.jugglers > 1 && beat < self.config.delaytime,
                    hands == self.config.hands,
                    maxocc == self.config.max_occupancy,
                    maxocc >= 1,
                    balls_thrown == bt,
                    balls_thrown <= hands,
                    base_hands@ == bh,
                    base_hands.len() == hands,
                    base_values.len() == hands,
                    hand <= hands,
                    bt == self.throwing_hands(beat as int, hands as int),
                    self.delay_throwers_ok(beat as int),
                    self.ground_places(beat as int, self.config.ht as int).len() >= self.config.n,
                    bh == Seq::new(hands as nat, |b: int| self.ground_throw(beat as int, b).0 as usize),
                    bv0 == Seq::new(hands as nat, |b: int| self.ground_throw(beat as int, b).1 as usize),
                    self.leader_matching(beat as int, 0, bh, bv0, bt) == self.leader_matching(
                        beat as int,
                        hand as int,
                        bh,
                        base_values@,
                        bt,
                    ),
                decreases hands - hand,
            {
                if !(self.state.get(beat, hand, 0) == 0 || self.person_number(hand)
                    == self.config.leader_person) {
                    let to = self.throw_to.get(beat, hand, 0);
                    let value = self.throw_value.get(beat, hand, 0);
                    let ghost bv = base_values@;
                    let mut found = false;
                    let mut ball: usize = 0;
                    while ball < balls_thrown && !found
                        invariant
                            balls_thrown <= hands,
                            base_hands.len() == hands,
                            base_hands@ == bh,
                            base_values.len() == hands,
                            ball <= balls_thrown,
                            balls_thrown == bt,
                            !found ==> base_values@ == bv && Self::first_match(bh, bv, bt, to as int, value as int, 0)
                                == Self::first_match(bh, bv, bt, to as int, value as int, ball as int),
                            found ==> ball < bt && base_values@ == bv.update(ball as int, 0usize)
                                && Self::first_match(bh, bv, bt, to as int, value as int, 0) == ball,
                        decreases balls_thrown - ball, if found { 0int } else { 1int },
                    {
                        if base_hands[ball] == to && base_values[ball] == value {
                            base_values.set(ball, 0);
                            found = true;
                        } else {
                            ball = ball + 1;
                        }
                    }
                    if !found {
                        assert(!self.leader_matching(beat as int, hand as int, bh, base_values@, bt));
                        assert(!self.delay_ok(beat as int));
                        return Ok(false);
                    }
                }
                hand = hand + 1;
            }
        }
        Ok(true)
    }
}

} // verus!

verus! {

impl SiteswapGenerator {
    /// A score of what juggler `person` throws on `beat`, to order the jugglers.
    fn juggler_score(&self, beat: usize, person: usize) -> (r: Result<i128, Halt>)
        requires
            self.wf(),
            beat < self.config.slot_size,
        ensures
            r matches Ok(v) ==> v == self.hands_score(beat as int, person as int, 0),
            r is Err ==> r->Err_0 is Internal,
            self.values_in_range(beat as int) ==> r is Ok,
    {
        let hands = self.config.hands;
        let maxocc = self.config.max_occupancy;
        let slot_size = self.config.slot_size;
        let occupancy_factor: i128 = 2 * (maxocc as i128);
        let mut score: i128 = 0;
        let mut hand: usize = 0;
        while hand < hands
            invariant
                self.wf(),
                beat < self.config.slot_size,
                hands == self.config.hands,
                maxocc == self.config.max_occupancy,
                slot_size == self.config.slot_size,
                occupancy_factor == 2 * maxocc,
                hand <= hands,
                0 <= score <= hand * maxocc * 0x100_0000_0000_0000_0000,
                self.hands_score(beat as int, person as int, 0) == score + self.hands_score(
                    beat as int,
                    person as int,
                    hand as int,
                ),
            decreases hands - hand,
        {
            if self.person_number(hand) == person {
                let mut slot: usize = 0;
                let ghost start = score;
                while slot < maxocc && self.throw_value.get(beat, hand, slot) > 0
                    invariant
                        self.wf(),
                        beat < self.config.slot_size,
                        hands == self.config.hands,
                        maxocc == self.config.max_occupancy,
                        slot_size == self.config.slot_size,
                        occupancy_factor == 2 * maxocc,
                        hand < hands,
                        slot <= maxocc,
                        start <= hand * maxocc * 0x100_0000_0000_0000_0000,
                        start <= score <= start + slot * 0x100_0000_0000_0000_0000,
                        self.person_of(hand as int) == person,
                        self.hands_score(beat as int, person as int, 0) == start + self.hands_score(
                            beat as int,
                            person as int,
                            hand as int,
                        ),
                        self.hands_score(beat as int, person as int, hand as int) == self.slots_score(
                            beat as int,
                            hand as int,
                            person as int,
                            0,
                        ) + self.hands_score(beat as int, person as int, hand + 1),
                        self.slots_score(beat as int, hand as int, person as int, 0) == (score
                            - start) + self.slots_score(beat as int, hand as int, person as int, slot as int),
                    decreases maxocc - slot,
                {
                    let value = self.throw_value.get(beat, hand, slot);
                    if value > slot_size {
                        assert(!self.values_in_range(beat as int));
                        return Err(Halt::Internal);
                    }
                    proof {
                        let g = self.config.spec_of();
                        assert(slot_size * maxocc <= 33554432 && hands * maxocc <= 33554432) by (nonlinear_arith)
                            requires
                                g.slot_size * g.hands * g.max_occupancy <= 33554432,
                                g.hands >= 1,
                                g.slot_size >= 1,
                                slot_size == g.slot_size,
                                maxocc == g.max_occupancy,
                                hands == g.hands,
                        ;
                        assert(4 * value * occupancy_factor <= 16 * 33554432 * 33554432
                            && 4 * value * occupancy_factor * occupancy_factor <= 16 * 33554432 * 33554432 * 2)
                            by (nonlinear_arith)
                            requires
                                value <= slot_size,
                                slot_size * maxocc <= 33554432,
                                occupancy_factor == 2 * maxocc,
                                maxocc <= 33554432,
                                value >= 0,
                                maxocc >= 0,
                        ;
                        assert(start + (slot + 1) * 0x100_0000_0000_0000_0000 <= 33554432 * 0x100_0000_0000_0000_0000)
                            by (nonlinear_arith)
                            requires
                                start <= hand * maxocc * 0x100_0000_0000_0000_0000,
                                slot < maxocc,
                                hand < hands,
                                hands * maxocc <= 33554432,
                        ;
                    }
                    let mut add: i128 = 4 * (value as i128) * occupancy_factor * occupancy_factor;
                    let to = self.throw_to.get(beat, hand, slot);
                    proof {
                        lemma_grid_index(beat as int, hand as int, slot as int, self.throw_to.d0 as int, self.throw_to.d1 as int, self.throw_to.d2 as int);
                    }
                    if to != hand {
                        add = add + 2 * occupancy_factor;
                        if self.person_number(to) != person {
                            add = add + 1;
                        }
                    }
                    score = score + add;
                    slot = slot + 1;
                }
                proof {
                    assert(start + maxocc * 0x100_0000_0000_0000_0000 <= (hand + 1) * maxocc * 0x100_0000_0000_0000_0000) by (nonlinear_arith)
                        requires
                            start <= hand * maxocc * 0x100_0000_0000_0000_0000,
                            maxocc >= 0,
                    ;
                    assert(score <= start + maxocc * 0x100_0000_0000_0000_0000) by (nonlinear_arith)
                        requires
                            score <= start + slot * 0x100_0000_0000_0000_0000,
                            slot <= maxocc,
                    ;
                }
            } else {
                proof {
                    assert(hand * maxocc * 0x100_0000_0000_0000_0000 <= (hand + 1) * maxocc * 0x100_0000_0000_0000_0000) by (nonlinear_arith)
                        requires
                            maxocc >= 0,
                    ;
                }
            }
            hand = hand + 1;
        }
        Ok(score)
    }
}

} // verus!

verus! {

impl SiteswapGenerator {
    /// How many objects hand `hand` catches and throws on beat `beat`.
    spec fn rhythm_at(&self, beat: int, hand: int) -> int {
        if beat % (self.config.rhythm_period as int) == 0 {
            self.config.multiplex as int
        } else {
            0
        }
    }

    /// The throws of beats `first` and `second` in hand `hand` compared from slot `slot` up to
    /// `count`: value first, then destination; the first difference decides.
    spec fn compare_slots(&self, first: int, second: int, hand: int, slot: int, count: int) -> i32
        decreases count - slot,
    {
        if slot >= count {
            0
        } else {
            let a = self.throw_value.at(first, hand, slot);
            let b = self.throw_value.at(second, hand, slot);
            let x = self.throw_to.at(first, hand, slot);
            let y = self.throw_to.at(second, hand, slot);
            if a > b {
                1
            } else if a < b {
                -1i32
            } else if x > y {
                1
            } else if x < y {
                -1i32
            } else {
                self.compare_slots(first, second, hand, slot + 1, count)
            }
        }
    }

    /// The throws of beats `first` and `second` compared from hand `hand` on, as many per
    /// hand as the rhythm gives beat `first`.
    spec fn compare_hands(&self, first: int, second: int, hand: int) -> i32
        decreases self.config.hands - hand,
    {
        if hand >= self.config.hands {
            0
        } else {
            let c = self.compare_slots(first, second, hand, 0, self.rhythm_at(first, hand));
            if c != 0 {
                c
            } else {
                self.compare_hands(first, second, hand + 1)
            }
        }
    }

    /// The score of the throws of beat `beat` in hand `hand` from slot `slot` on, up to the
    /// first empty slot: each throw counts its value first, then whether it leaves the hand,
    /// then whether it leaves juggler `person`.
    spec fn slots_score(&self, beat: int, hand: int, person: int, slot: int) -> int
        decreases self.config.max_occupancy - slot,
    {
        if slot < 0 || slot >= self.config.max_occupancy || self.throw_value.at(beat, hand, slot) == 0 {
            0
        } else {
            let f = 2 * self.config.max_occupancy;
            let value = self.throw_value.at(beat, hand, slot) as int;
            let to = self.throw_to.at(beat, hand, slot) as int;
            let add = 4 * value * f * f + if to != hand {
                2 * f + if self.person_of(to) != person {
                    1int
                } else {
                    0int
                }
            } else {
                0int
            };
            add + self.slots_score(beat, hand, person, slot + 1)
        }
    }

    /// The score of juggler `person` on beat `beat`, from hand `hand` on.
    spec fn hands_score(&self, beat: int, person: int, hand: int) -> int
        decreases self.config.hands - hand,
    {
        if hand < 0 || hand >= self.config.hands {
            0
        } else {
            (if self.person_of(hand) == person {
                self.slots_score(beat, hand, person, 0)
            } else {
                0
            }) + self.hands_score(beat, person, hand + 1)
        }
    }

    /// No throw of beat `beat` is longer than the table of beats.
    spec fn values_in_range(&self, beat: int) -> bool {
        forall|hand: int, slot: int|
            0 <= hand < self.config.hands && 0 <= slot < self.config.max_occupancy
                ==> #[trigger] self.throw_value.at(beat, hand, slot) <= self.config.slot_size
    }

    /// Compares the throws of two beats, hand by hand and throw by throw: value first, then
    /// destination.
    fn compare_throws(&self, first: usize, second: usize) -> (r: i32)
        requires
            self.wf(),
            first < self.config.slot_size,
            second < self.config.slot_size,
        ensures
            r == self.compare_hands(first as int, second as int, 0),
    {
        let hands = self.config.hands;
        let mut hand: usize = 0;
        while hand < hands
            invariant
                self.wf(),
                first < self.config.slot_size,
                second < self.config.slot_size,
                hands == self.config.hands,
                hand <= hands,
                self.compare_hands(first as int, second as int, 0) == self.compare_hands(
                    first as int,
                    second as int,
                    hand as int,
                ),
            decreases hands - hand,
        {
            let count = self.rhythm(first, hand, 0);
            assert(count == self.rhythm_at(first as int, hand as int));
            let mut slot: usize = 0;
            while slot < count
                invariant
                    self.wf(),
                    first < self.config.slot_size,
                    second < self.config.slot_size,
                    hands == self.config.hands,
                    hand < hands,
                    count <= self.config.max_occupancy,
                    count == self.rhythm_at(first as int, hand as int),
                    slot <= count,
                    self.compare_hands(first as int, second as int, 0) == self.compare_hands(
                        first as int,
                        second as int,
                        hand as int,
                    ),
                    self.compare_slots(first as int, second as int, hand as int, 0, count as int)
                        == self.compare_slots(
                        first as int,
                        second as int,
                        hand as int,
                        slot as int,
                        count as int,
                    ),
                decreases count - slot,
            {
                let a = self.throw_value.get(first, hand, slot);
                let b = self.throw_value.get(second, hand, slot);
                if a > b {
                    return 1;
                }
                if a < b {
                    return -1;
                }
                let x = self.throw_to.get(first, hand, slot);
                let y = self.throw_to.get(second, hand, slot);
                if x > y {
                    return 1;
                }
                if x < y {
                    return -1;
                }
                slot = slot + 1;
            }
            hand = hand + 1;
        }
        0
    }

    /// The loops that run on from beats `a` and `b` (after `length` beats, with `result` the
    /// first difference of their throws so far) compared until one of them returns, on a
    /// rhythm beat, to the state at `first`: the one that returns first is the smaller; if
    /// both return together, or the table ends first, the throws decide.
    spec fn loops_order(&self, first: int, a: int, b: int, result: i32, length: int) -> i32
        decreases self.config.l_max - a,
    {
        let length2 = length + 1;
        if a + 1 >= self.config.l_max + 1 || b + 1 >= self.config.l_max + 1 || a < 0 || b < 0 {
            result
        } else {
            let result2 = if result == 0 {
                self.compare_hands(a, b, 0)
            } else {
                result
            };
            let rhythm_beat = length2 % (self.config.rhythm_period as int) == 0;
            if rhythm_beat && self.same_state(a + 1, first) {
                if self.same_state(b + 1, first) {
                    result2
                } else {
                    -1i32
                }
            } else if rhythm_beat && self.same_state(b + 1, first) {
                1i32
            } else {
                self.loops_order(first, a + 1, b + 1, result2, length2)
            }
        }
    }

    /// Compares the loops that start at beats `first` and `second` and run until the state
    /// at `first` comes back.
    fn compare_loops(&self, first: usize, second: usize) -> (r: i32)
        requires
            self.wf(),
            first <= self.config.l_max,
            second <= self.config.l_max,
        ensures
            r == self.loops_order(first as int, first as int, second as int, 0, 0),
    {
        let l_max = self.config.l_max;
        let rp = self.config.rhythm_period;
        let mut current_first = first;
        let mut current_second = second;
        let mut result: i32 = 0;
        let mut length: usize = 0;
        loop
            invariant
                self.wf(),
                l_max == self.config.l_max,
                rp == self.config.rhythm_period,
                first <= l_max,
                current_first <= l_max,
                current_second <= l_max,
                length <= current_first,
                current_first - length == first,
                self.loops_order(first as int, first as int, second as int, 0, 0) == self.loops_order(
                    first as int,
                    current_first as int,
                    current_second as int,
                    result,
                    length as int,
                ),
            decreases l_max - current_first,
        {
            length = length + 1;
            if current_first + 1 >= l_max + 1 || current_second + 1 >= l_max + 1 {
                return result;
            }
            if result == 0 {
                result = self.compare_throws(current_first, current_second);
            }
            if length % rp == 0 {
                let first_equal = self.states_equal(current_first + 1, first);
                let second_equal = self.states_equal(current_second + 1, first);
                if first_equal {
                    return if second_equal {
                        result
                    } else {
                        -1
                    };
                }
                if second_equal {
                    return 1;
                }
            }
            current_first = current_first + 1;
            current_second = current_second + 1;
        }
    }

    /// The pattern compared with its rotation, loop by loop from `offset` on: the loops that
    /// start `offset` beats after `first` and after `second` are compared, and on a tie the
    /// comparison moves on to the next beat whose state is the state at `first`.
    spec fn rotations_order(&self, first: int, second: int, offset: int, skipping: bool) -> i32
        decreases self.l_target - offset, if skipping {
            1int
        } else {
            0int
        },
    {
        let lt = self.l_target as int;
        if skipping {
            if offset < lt && !self.same_state(first, (first + offset) % lt) {
                self.rotations_order(first, second, offset + 1, true)
            } else {
                self.rotations_order(first, second, offset, false)
            }
        } else if offset >= lt {
            0
        } else {
            let a = (first + offset) % lt;
            let b = (second + offset) % lt;
            let c = self.loops_order(a, a, b, 0, 0);
            if c != 0 {
                c
            } else {
                self.rotations_order(first, second, offset + 1, true)
            }
        }
    }

    /// Compares the pattern with its rotation that starts at beat `second`.
    fn compare_rotations(&self, first: usize, second: usize) -> (r: Result<i32, Halt>)
        requires
            self.wf(),
            self.searching(),
            first < self.l_target,
            second < self.l_target,
        ensures
            match r {
                Ok(_) => true,
                Err(Halt::Stop(GenerationStopReason::TimeLimit(x))) => (self.limits.max_time matches Some(d) && x == whole_seconds(d)),
                Err(Halt::Stop(GenerationStopReason::Cancelled)) => self.limits.cancelled is Some,
                Err(_) => false,
            },
            r matches Ok(v) ==> v == self.rotations_order(first as int, second as int, 0, false),
            self.limits.cancelled is None && self.limits.max_time is None ==> r is Ok,
    {
        let lt = self.l_target;
        let mut offset: usize = 0;
        while offset < lt
            invariant
                self.wf(),
                self.searching(),
                lt == self.l_target,
                first < lt,
                second < lt,
                offset <= lt,
                self.rotations_order(first as int, second as int, 0, false) == self.rotations_order(
                    first as int,
                    second as int,
                    offset as int,
                    false,
                ),
            decreases lt - offset,
        {
            let stop = self.check_stopping();
            if stop.is_err() {
                return Err(stop.unwrap_err());
            }
            let result = self.compare_loops((first + offset) % lt, (second + offset) % lt);
            if result != 0 {
                return Ok(result);
            }
            offset = offset + 1;
            let ghost o0 = offset;
            while offset < lt && !self.states_equal(first, (first + offset) % lt)
                invariant
                    self.wf(),
                    self.searching(),
                    lt == self.l_target,
                    first < lt,
                    offset <= lt,
                    offset >= o0,
                    self.rotations_order(first as int, second as int, 0, false) == self.rotations_order(
                        first as int,
                        second as int,
                        offset as int,
                        true,
                    ),
                decreases lt - offset,
            {
                offset = offset + 1;
            }
        }
        Ok(0)
    }

    /// Whether hand `hand` throws a one to its own juggler on beat `beat`.
    spec fn self_one(&self, beat: int, hand: int) -> bool {
        &&& self.throw_value.at(beat, hand, 0) == 1
        &&& self.person_of(self.throw_to.at(beat, hand, 0) as int) == self.person_of(hand)
    }

    /// Whether some juggler throws a self one on two beats in a row (a "lame" pattern).
    fn has_lame_throws(&self) -> (r: bool)
        requires
            self.wf(),
            self.searching(),
            self.config.max_occupancy == 1,
        ensures
            r <==> exists|beat: int, hand: int|
                0 <= beat && beat + 1 < self.l_target && 0 <= hand < self.config.hands
                    && #[trigger] self.self_one(beat, hand) && self.self_one(beat + 1, hand),
    {
        let hands = self.config.hands;
        let lt = self.l_target;
        let mut beat: usize = 0;
        while beat + 1 < lt
            invariant
                self.wf(),
                self.searching(),
                self.config.max_occupancy == 1,
                hands == self.config.hands,
                lt == self.l_target,
                beat <= lt,
                forall|b: int, h: int|
                    0 <= b < beat && b + 1 < lt && 0 <= h < hands ==> !(#[trigger] self.self_one(b, h)
                        && self.self_one(b + 1, h)),
            decreases lt - beat,
        {
            let mut hand: usize = 0;
            while hand < hands
                invariant
                    self.wf(),
                    self.searching(),
                    self.config.max_occupancy == 1,
                    hands == self.config.hands,
                    lt == self.l_target,
                    beat + 1 < lt,
                    hand <= hands,
                    forall|b: int, h: int|
                        0 <= b < beat && b + 1 < lt && 0 <= h < hands ==> !(#[trigger] self.self_one(b, h)
                            && self.self_one(b + 1, h)),
                    forall|h: int|
                        0 <= h < hand ==> !(#[trigger] self.self_one(beat as int, h) && self.self_one(
                            beat + 1,
                            h,
                        )),
                decreases hands - hand,
            {
                let person = self.person_number(hand);
                let to_now = self.throw_to.get(beat, hand, 0);
                let to_next = self.throw_to.get(beat + 1, hand, 0);
                proof {
                    lemma_grid_index(beat as int, hand as int, 0, self.throw_to.d0 as int, self.throw_to.d1 as int, self.throw_to.d2 as int);
                    lemma_grid_index(beat as int + 1, hand as int, 0, self.throw_to.d0 as int, self.throw_to.d1 as int, self.throw_to.d2 as int);
                }
                if self.throw_value.get(beat, hand, 0) == 1 && self.person_number(to_now) == person
                    && self.throw_value.get(beat + 1, hand, 0) == 1 && self.person_number(to_next)
                    == person {
                    assert(self.self_one(beat as int, hand as int) && self.self_one(beat + 1, hand as int));
                    return true;
                }
                hand = hand + 1;
            }
            beat = beat + 1;
        }
        false
    }

    /// Slot `slot` of hand `hand` on beat `b` holds a throw, as do the slots before it.
    spec fn thrown(&self, b: int, hand: int, slot: int) -> bool {
        &&& 0 <= b < self.l_target
        &&& 0 <= hand < self.config.hands
        &&& 0 <= slot < self.config.max_occupancy
        &&& forall|k: int| 0 <= k <= slot ==> #[trigger] self.throw_value.at(b, hand, k) != 0
    }

    /// Juggler `p` (from 0) throws to juggler `q` somewhere in the pattern.
    spec fn throws_to(&self, p: int, q: int) -> bool {
        exists|b: int, hand: int, slot: int|
            #[trigger] self.thrown(b, hand, slot) && self.person_of(hand) == p + 1 && self.person_of(
                self.throw_to.at(b, hand, slot) as int,
            ) == q + 1
    }

    /// Throws lead from juggler `p` (from 0) to the first juggler in at most `n` steps.
    spec fn reaches_first_in(&self, p: int, n: nat) -> bool
        decreases n,
    {
        if n == 0 {
            p == 0
        } else {
            self.reaches_first_in(p, (n - 1) as nat) || exists|q: int|
                0 <= q < self.config.jugglers && #[trigger] self.throws_to(p, q)
                    && self.reaches_first_in(q, (n - 1) as nat)
        }
    }

    /// Throws lead from juggler `p` (from 0) to the first juggler.
    spec fn reaches_first(&self, p: int) -> bool {
        exists|n: nat| #[trigger] self.reaches_first_in(p, n)
    }

    /// A set of jugglers that holds the first one, and every juggler that throws to one in it.
    proof fn lemma_closed_holds_reaching(&self, conn: Seq<bool>, p: int, n: nat)
        requires
            conn.len() == self.config.jugglers,
            conn[0],
            forall|a: int, q: int|
                0 <= a < self.config.jugglers && 0 <= q < self.config.jugglers && !conn[a]
                    && #[trigger] self.throws_to(a, q) ==> !conn[q],
            0 <= p < self.config.jugglers,
            self.reaches_first_in(p, n),
        ensures
            conn[p],
        decreases n,
    {
        if n > 0 {
            if self.reaches_first_in(p, (n - 1) as nat) {
                self.lemma_closed_holds_reaching(conn, p, (n - 1) as nat);
            } else {
                let q = choose|q: int|
                    0 <= q < self.config.jugglers && #[trigger] self.throws_to(p, q)
                        && self.reaches_first_in(q, (n - 1) as nat);
                self.lemma_closed_holds_reaching(conn, q, (n - 1) as nat);
            }
        }
    }

    /// Whether from every juggler a chain of throws leads to the first one.
    fn all_connected(&mut self) -> (r: bool)
        requires
            old(self).wf(),
            old(self).searching(),
            old(self).config.jugglers > 1,
            old(self).config.connected_patterns_flag,
        ensures
            final(self).wf(),
            final(self).config == old(self).config,
            final(self).limits == old(self).limits,
            final(self).l_target == old(self).l_target,
            final(self).patterns == old(self).patterns,
            final(self).patterns_found == old(self).patterns_found,
            final(self).state == old(self).state,
            final(self).throw_to == old(self).throw_to,
            final(self).throw_value == old(self).throw_value,
            final(self).throws_left == old(self).throws_left,
            final(self).holes == old(self).holes,
            final(self).mp_filter == old(self).mp_filter,
            final(self).starting_sequence == old(self).starting_sequence,
            final(self).ending_sequence == old(self).ending_sequence,
            r <==> forall|p: int| 0 <= p < old(self).config.jugglers ==> #[trigger] old(self).reaches_first(p),
    {
        let jugglers = self.config.jugglers;
        let hands = self.config.hands;
        let maxocc = self.config.max_occupancy;
        let lt = self.l_target;
        let mut k: usize = 0;
        while k < jugglers
            invariant
                self.wf(),
                self.searching(),
                self.config == old(self).config,
                self.limits == old(self).limits,
                self.l_target == old(self).l_target,
                self.patterns == old(self).patterns,
                self.patterns_found == old(self).patterns_found,
                self.state == old(self).state,
                self.throw_to == old(self).throw_to,
                self.throw_value == old(self).throw_value,
                self.throws_left == old(self).throws_left,
                self.holes == old(self).holes,
                self.mp_filter == old(self).mp_filter,
                self.starting_sequence == old(self).starting_sequence,
                self.ending_sequence == old(self).ending_sequence,
                jugglers == self.config.jugglers,
                self.connections.len() == jugglers,
                k <= jugglers,
                forall|p: int| 0 <= p < k ==> !#[trigger] self.connections@[p],
            decreases jugglers - k,
        {
            self.connections.set(k, false);
            k = k + 1;
        }
        self.connections.set(0, true);
        proof {
            assert(old(self).reaches_first_in(0, 0));
        }
        let mut changed = true;
        while changed
            invariant
                self.wf(),
                self.searching(),
                self.config == old(self).config,
                self.limits == old(self).limits,
                self.l_target == old(self).l_target,
                self.patterns == old(self).patterns,
                self.patterns_found == old(self).patterns_found,
                self.state == old(self).state,
                self.throw_to == old(self).throw_to,
                self.throw_value == old(self).throw_value,
                self.throws_left == old(self).throws_left,
                self.holes == old(self).holes,
                self.mp_filter == old(self).mp_filter,
                self.starting_sequence == old(self).starting_sequence,
                self.ending_sequence == old(self).ending_sequence,
                jugglers == self.config.jugglers,
                hands == self.config.hands,
                maxocc == self.config.max_occupancy,
                lt == self.l_target,
                jugglers > 1,
                self.connections.len() == jugglers,
                self.connections@[0],
                forall|p: int| 0 <= p < jugglers && #[trigger] self.connections@[p] ==> old(self).reaches_first(p),
                !changed ==> forall|a: int, q: int|
                    0 <= a < jugglers && 0 <= q < jugglers && !self.connections@[a]
                        && #[trigger] old(self).throws_to(a, q) ==> !self.connections@[q],
            ensures
                self.wf(),
                self.config == old(self).config,
                self.limits == old(self).limits,
                self.l_target == old(self).l_target,
                self.patterns == old(self).patterns,
                self.patterns_found == old(self).patterns_found,
                self.state == old(self).state,
                self.throw_to == old(self).throw_to,
                self.throw_value == old(self).throw_value,
                self.throws_left == old(self).throws_left,
                self.holes == old(self).holes,
                self.mp_filter == old(self).mp_filter,
                self.starting_sequence == old(self).starting_sequence,
                self.ending_sequence == old(self).ending_sequence,
                self.connections.len() == jugglers,
                self.connections@[0],
                forall|p: int| 0 <= p < jugglers && #[trigger] self.connections@[p] ==> old(self).reaches_first(p),
                forall|a: int, q: int|
                    0 <= a < jugglers && 0 <= q < jugglers && !self.connections@[a]
                        && #[trigger] old(self).throws_to(a, q) ==> !self.connections@[q],
            decreases count_false(self.connections@) + if changed { 1int } else { 0int },
        {
            changed = false;
            let ghost start = count_false(self.connections@);
            let ghost start_conn = self.connections@;
            let mut beat: usize = 0;
            while beat < lt
                invariant
                    self.wf(),
                    self.searching(),
                    self.config == old(self).config,
                    self.limits == old(self).limits,
                    self.l_target == old(self).l_target,
                    self.patterns == old(self).patterns,
                    self.patterns_found == old(self).patterns_found,
                    self.state == old(self).state,
                    self.throw_to == old(self).throw_to,
                    self.throw_value == old(self).throw_value,
                    self.throws_left == old(self).throws_left,
                    self.holes == old(self).holes,
                    self.mp_filter == old(self).mp_filter,
                    self.starting_sequence == old(self).starting_sequence,
                    self.ending_sequence == old(self).ending_sequence,
                    jugglers == self.config.jugglers,
                    hands == self.config.hands,
                    maxocc == self.config.max_occupancy,
                    lt == self.l_target,
                    self.connections.len() == jugglers,
                    changed ==> count_false(self.connections@) < start,
                    !changed ==> count_false(self.connections@) == start,
                    !changed ==> self.connections@ == start_conn,
                    self.connections@[0],
                    forall|p: int| 0 <= p < jugglers && #[trigger] self.connections@[p] ==> old(self).reaches_first(p),
                    !changed ==> forall|b: int, h: int, sl: int|
                        #[trigger] old(self).thrown(b, h, sl) && (b < beat) && !self.connections@[old(self).person_of(h) - 1]
                            ==> !self.connections@[old(self).person_of(old(self).throw_to.at(b, h, sl) as int) - 1],
                    beat <= lt,
                decreases lt - beat,
            {
                let mut hand: usize = 0;
                while hand < hands
                    invariant
                        self.wf(),
                        self.searching(),
                        self.config == old(self).config,
                        self.limits == old(self).limits,
                        self.l_target == old(self).l_target,
                        self.patterns == old(self).patterns,
                        self.patterns_found == old(self).patterns_found,
                        self.state == old(self).state,
                        self.throw_to == old(self).throw_to,
                        self.throw_value == old(self).throw_value,
                        self.throws_left == old(self).throws_left,
                        self.holes == old(self).holes,
                        self.mp_filter == old(self).mp_filter,
                        self.starting_sequence == old(self).starting_sequence,
                        self.ending_sequence == old(self).ending_sequence,
                        jugglers == self.config.jugglers,
                        hands == self.config.hands,
                        maxocc == self.config.max_occupancy,
                        lt == self.l_target,
                        beat < lt,
                        self.connections.len() == jugglers,
                        changed ==> count_false(self.connections@) < start,
                        !changed ==> count_false(self.connections@) == start,
                        !changed ==> self.connections@ == start_conn,
                        self.connections@[0],
                        forall|p: int| 0 <= p < jugglers && #[trigger] self.connections@[p] ==> old(self).reaches_first(p),
                        !changed ==> forall|b: int, h: int, sl: int|
                            #[trigger] old(self).thrown(b, h, sl) && (b < beat || (b == beat && h < hand)) && !self.connections@[old(self).person_of(h) - 1]
                                ==> !self.connections@[old(self).person_of(old(self).throw_to.at(b, h, sl) as int) - 1],
                        hand <= hands,
                    decreases hands - hand,
                {
                    let person = self.person_number(hand) - 1;
                    if !self.connections[person] {
                        let mut slot: usize = 0;
                        while slot < maxocc && self.throw_value.get(beat, hand, slot) > 0
                            invariant
                                self.wf(),
                                self.searching(),
                                self.config == old(self).config,
                                self.limits == old(self).limits,
                                self.l_target == old(self).l_target,
                                self.patterns == old(self).patterns,
                                self.patterns_found == old(self).patterns_found,
                                self.state == old(self).state,
                                self.throw_to == old(self).throw_to,
                                self.throw_value == old(self).throw_value,
                                self.throws_left == old(self).throws_left,
                                self.holes == old(self).holes,
                                self.mp_filter == old(self).mp_filter,
                                self.starting_sequence == old(self).starting_sequence,
                                self.ending_sequence == old(self).ending_sequence,
                                jugglers == self.config.jugglers,
                                hands == self.config.hands,
                                maxocc == self.config.max_occupancy,
                                lt == self.l_target,
                                beat < lt,
                                hand < hands,
                                person < jugglers,
                                person == old(self).person_of(hand as int) - 1,
                                self.connections.len() == jugglers,
                                changed ==> count_false(self.connections@) < start,
                                !changed ==> count_false(self.connections@) == start,
                                !changed ==> self.connections@ == start_conn,
                                self.connections@[person as int] ==> changed,
                                self.connections@[0],
                                forall|p: int| 0 <= p < jugglers && #[trigger] self.connections@[p] ==> old(self).reaches_first(p),
                                forall|kk: int| 0 <= kk < slot ==> #[trigger] self.throw_value.at(beat as int, hand as int, kk) != 0,
                                !changed ==> forall|b: int, h: int, sl: int|
                                    #[trigger] old(self).thrown(b, h, sl) && (b < beat || (b == beat && (h < hand || (h == hand && sl < slot)))) && !self.connections@[old(self).person_of(h) - 1]
                                        ==> !self.connections@[old(self).person_of(old(self).throw_to.at(b, h, sl) as int) - 1],
                                slot <= maxocc,
                            decreases maxocc - slot,
                        {
                            let to = self.throw_to.get(beat, hand, slot);
                            proof {
                                lemma_grid_index(beat as int, hand as int, slot as int, self.throw_to.d0 as int, self.throw_to.d1 as int, self.throw_to.d2 as int);
                            }
                            let target_person = self.person_number(to) - 1;
                            proof {
                                assert(old(self).thrown(beat as int, hand as int, slot as int));
                            }
                            if self.connections[target_person] && !self.connections[person] {
                                proof {
                                    lemma_count_false_set(self.connections@, person as int);
                                    assert(old(self).reaches_first(target_person as int));
                                    let n = choose|n: nat| #[trigger] old(self).reaches_first_in(target_person as int, n);
                                    assert(old(self).throws_to(person as int, target_person as int));
                                    assert(old(self).reaches_first_in(person as int, n + 1));
                                }
                                self.connections.set(person, true);
                                changed = true;
                            } else if self.connections[target_person] {
                                changed = true;
                            }
                            slot = slot + 1;
                        }
                        proof {
                            assert forall|sl: int| #[trigger] old(self).thrown(beat as int, hand as int, sl)
                                implies sl < slot by {
                                if sl >= slot {
                                    assert(self.throw_value.at(beat as int, hand as int, slot as int) != 0);
                                }
                            }
                        }
                    }
                    hand = hand + 1;
                }
                beat = beat + 1;
            }
            proof {
                if !changed {
                    assert forall|a: int, q: int|
                        0 <= a < jugglers && 0 <= q < jugglers && !self.connections@[a]
                            && #[trigger] old(self).throws_to(a, q) implies !self.connections@[q] by {
                        let (b, h, sl) = choose|b: int, h: int, sl: int|
                            #[trigger] old(self).thrown(b, h, sl) && old(self).person_of(h) == a + 1
                                && old(self).person_of(old(self).throw_to.at(b, h, sl) as int) == q + 1;
                        assert(old(self).thrown(b, h, sl));
                    }
                }
            }
        }
        let mut j: usize = 0;
        while j < jugglers
            invariant
                self.wf(),
                self.config == old(self).config,
                self.limits == old(self).limits,
                self.l_target == old(self).l_target,
                self.patterns == old(self).patterns,
                self.patterns_found == old(self).patterns_found,
                self.state == old(self).state,
                self.throw_to == old(self).throw_to,
                self.throw_value == old(self).throw_value,
                self.throws_left == old(self).throws_left,
                self.holes == old(self).holes,
                self.mp_filter == old(self).mp_filter,
                self.starting_sequence == old(self).starting_sequence,
                self.ending_sequence == old(self).ending_sequence,
                jugglers == self.config.jugglers,
                self.connections.len() == jugglers,
                j <= jugglers,
                self.connections@[0],
                forall|p: int| 0 <= p < jugglers && #[trigger] self.connections@[p] ==> old(self).reaches_first(p),
                forall|a: int, q: int|
                    0 <= a < jugglers && 0 <= q < jugglers && !self.connections@[a]
                        && #[trigger] old(self).throws_to(a, q) ==> !self.connections@[q],
                forall|p: int| 0 <= p < j ==> #[trigger] self.connections@[p],
            decreases jugglers - j,
        {
            if !self.connections[j] {
                proof {
                    if old(self).reaches_first(j as int) {
                        let n = choose|n: nat| #[trigger] old(self).reaches_first_in(j as int, n);
                        old(self).lemma_closed_holds_reaching(self.connections@, j as int, n);
                    }
                }
                return false;
            }
            j = j + 1;
        }
        proof {
            assert forall|p: int| 0 <= p < old(self).config.jugglers implies #[trigger] old(self).reaches_first(p) by {
                assert(self.connections@[p]);
            }
        }
        true
    }
}

} // verus!

verus! {

impl SiteswapGenerator {
    /// Whether the jugglers come in order: each one's throws, sorted by score, do not beat
    /// those of the juggler before.
    fn jugglers_in_order(&self) -> (r: Result<bool, Halt>)
        requires
            self.wf(),
            self.searching(),
        ensures
            self.config.jugglers <= 1 ==> r == Ok::<bool, Halt>(true),
            r is Err ==> r->Err_0 is Internal,
            self.pattern_values_in_range() ==> r is Ok,
            r matches Ok(b) ==> b == self.all_in_order(),
    {
        let ghost in_range = self.pattern_values_in_range();
        let ghost falses = self.none_done();
        let l_max = self.config.l_max;
        let lt = self.l_target;
        let jugglers = self.config.jugglers;
        let mut done_first: Vec<bool> = Vec::new();
        let mut done_second: Vec<bool> = Vec::new();
        let mut k: usize = 0;
        while k < l_max
            invariant
                k <= l_max,
                done_first.len() == k,
                done_second.len() == k,
                forall|i: int| 0 <= i < k ==> !#[trigger] done_first@[i] && !done_second@[i],
            decreases l_max - k,
        {
            done_first.push(false);
            done_second.push(false);
            k = k + 1;
        }
        assert forall|i: int| self.l_target <= i < l_max implies !#[trigger] done_first@[i] && !done_second@[i] by {
            assert(0 <= i < k);
            assert(!done_first@[i]);
            assert(!done_second@[i]);
        }
        let mut person: usize = 1;
        while person < jugglers
            invariant
                self.wf(),
                self.searching(),
                l_max == self.config.l_max,
                lt == self.l_target,
                lt <= l_max,
                jugglers == self.config.jugglers,
                done_first.len() == l_max,
                done_second.len() == l_max,
                person >= 1,
                in_range == self.pattern_values_in_range(),
                falses == self.none_done(),
                forall|i: int| lt <= i < l_max ==> !#[trigger] done_first@[i] && !done_second@[i],
                forall|q: int| 1 <= q < person ==> #[trigger] self.pair_in_order(q, falses, falses, 0),
            decreases jugglers - person,
        {
            let mut k: usize = 0;
            while k < lt
                invariant
                    lt <= l_max,
                    done_first.len() == l_max,
                    done_second.len() == l_max,
                    k <= lt,
                    forall|i: int| (lt <= i < l_max || 0 <= i < k) ==> !#[trigger] done_first@[i] && !done_second@[i],
                decreases lt - k,
            {
                done_first.set(k, false);
                done_second.set(k, false);
                k = k + 1;
            }
            assert(done_first@ =~= falses);
            assert(done_second@ =~= falses);
            let mut round: usize = 0;
            let mut settled = false;
            while round < lt && !settled
                invariant
                    self.wf(),
                    self.searching(),
                    l_max == self.config.l_max,
                    lt == self.l_target,
                    lt <= l_max,
                    jugglers == self.config.jugglers,
                    done_first.len() == l_max,
                    done_second.len() == l_max,
                    person < jugglers,
                    person >= 1,
                    in_range == self.pattern_values_in_range(),
                    falses == self.none_done(),
                    round <= lt,
                    forall|i: int| lt <= i < l_max ==> !#[trigger] done_first@[i] && !done_second@[i],
                    forall|q: int| 1 <= q < person ==> #[trigger] self.pair_in_order(q, falses, falses, 0),
                    settled ==> self.pair_in_order(person as int, falses, falses, 0),
                    !settled ==> self.pair_in_order(person as int, falses, falses, 0) == self.pair_in_order(
                        person as int,
                        done_first@,
                        done_second@,
                        round as int,
                    ),
                decreases lt - round, if settled { 0int } else { 1int },
            {
                let mut score_first: i128 = -1;
                let mut score_second: i128 = -1;
                let mut max_first: usize = 0;
                let mut max_second: usize = 0;
                let mut beat: usize = 0;
                while beat < lt
                    invariant
                        self.wf(),
                        self.searching(),
                        l_max == self.config.l_max,
                        lt == self.l_target,
                        lt <= l_max,
                        jugglers == self.config.jugglers,
                        done_first.len() == l_max,
                        done_second.len() == l_max,
                        person < jugglers,
                        beat <= lt,
                        max_first < lt,
                        max_second < lt,
                        person >= 1,
                        in_range == self.pattern_values_in_range(),
                        self.best_beat(person as int, done_first@, 0, -1, 0) == self.best_beat(
                            person as int,
                            done_first@,
                            beat as int,
                            score_first as int,
                            max_first as int,
                        ),
                        self.best_beat(person + 1, done_second@, 0, -1, 0) == self.best_beat(
                            person + 1,
                            done_second@,
                            beat as int,
                            score_second as int,
                            max_second as int,
                        ),
                    decreases lt - beat,
                {
                    proof {
                        if in_range {
                            assert(self.values_in_range(beat as int));
                        }
                    }
                    if !done_first[beat] {
                        let score = self.juggler_score(beat, person)?;
                        if score > score_first {
                            score_first = score;
                            max_first = beat;
                        }
                    }
                    if !done_second[beat] {
                        let score = self.juggler_score(beat, person + 1)?;
                        if score > score_second {
                            score_second = score;
                            max_second = beat;
                        }
                    }
                    beat = beat + 1;
                }
                if score_second > score_first {
                    return Ok(false);
                }
                if score_second < score_first {
                    settled = true;
                } else {
                    done_first.set(max_first, true);
                    done_second.set(max_second, true);
                    round = round + 1;
                }
            }
            person = person + 1;
        }
        Ok(true)
    }

    /// The best score of juggler `person` over the beats from `beat` on that are not yet
    /// `done`, starting from `score` at beat `best` (the first beat wins a tie).
    spec fn best_beat(&self, person: int, done: Seq<bool>, beat: int, score: int, best: int) -> (int, int)
        decreases self.l_target - beat,
    {
        if beat < 0 || beat >= self.l_target {
            (score, best)
        } else {
            let s = self.hands_score(beat, person, 0);
            if !done[beat] && s > score {
                self.best_beat(person, done, beat + 1, s, beat)
            } else {
                self.best_beat(person, done, beat + 1, score, best)
            }
        }
    }

    /// Juggler `person + 1` does not come before juggler `person`, from round `round` on:
    /// their scores, best first, are compared until one is higher.
    spec fn pair_in_order(&self, person: int, first: Seq<bool>, second: Seq<bool>, round: int) -> bool
        decreases self.l_target - round,
    {
        if round < 0 || round >= self.l_target {
            true
        } else {
            let f = self.best_beat(person, first, 0, -1, 0);
            let g = self.best_beat(person + 1, second, 0, -1, 0);
            if g.0 > f.0 {
                false
            } else if g.0 < f.0 {
                true
            } else {
                self.pair_in_order(person, first.update(f.1, true), second.update(g.1, true), round + 1)
            }
        }
    }

    /// Every juggler after the first comes in order after the one before.
    spec fn all_in_order(&self) -> bool {
        forall|person: int|
            1 <= person < self.config.jugglers ==> #[trigger] self.pair_in_order(
                person,
                self.none_done(),
                self.none_done(),
                0,
            )
    }

    /// No beat taken yet.
    spec fn none_done(&self) -> Seq<bool> {
        Seq::new(self.config.l_max as nat, |i: int| false)
    }

    /// No throw of the pattern is longer than the table of beats.
    spec fn pattern_values_in_range(&self) -> bool {
        forall|beat: int| 0 <= beat < self.l_target ==> #[trigger] self.values_in_range(beat)
    }

    /// From slot `slot` on, up to the first slot empty in both, the throws of hand
    /// `first_hand` on beat `beat` and of hand `hand` on beat `shifted` have the same value,
    /// both stay with their juggler (the first juggler, juggler `person`) or both leave, and
    /// both stay in their hand or both leave it.
    spec fn slots_match(&self, beat: int, shifted: int, hand: int, first_hand: int, person: int, slot: int) -> bool
        decreases self.config.max_occupancy - slot,
    {
        if slot < 0 || slot >= self.config.max_occupancy {
            true
        } else {
            let first_value = self.throw_value.at(beat, first_hand, slot);
            let first_to = self.throw_to.at(beat, first_hand, slot);
            let value = self.throw_value.at(shifted, hand, slot);
            let to = self.throw_to.at(shifted, hand, slot);
            if first_value == 0 && value == 0 {
                true
            } else if first_value != value || (self.person_of(first_to as int) == 1) != (self.person_of(
                to as int,
            ) == person) || (first_to == first_hand) != (to == hand) {
                false
            } else {
                self.slots_match(beat, shifted, hand, first_hand, person, slot + 1)
            }
        }
    }

    /// From hand `hand` on, the hands of juggler `person` on beat `shifted`, in order, throw
    /// as the hands from `first_hand` on throw on beat `beat`.
    spec fn hands_match(&self, beat: int, shifted: int, hand: int, first_hand: int, person: int) -> bool
        decreases self.config.hands - hand,
    {
        if hand < 0 || hand >= self.config.hands {
            true
        } else if self.person_of(hand) == person {
            self.slots_match(beat, shifted, hand, first_hand, person, 0) && self.hands_match(
                beat,
                shifted,
                hand + 1,
                first_hand + 1,
                person,
            )
        } else {
            self.hands_match(beat, shifted, hand + 1, first_hand, person)
        }
    }

    /// From beat `beat` on, juggler `person` throws `offset` beats later what the first
    /// juggler throws (the hands compared from the second hand on).
    spec fn beats_match(&self, beat: int, person: int, offset: int) -> bool
        decreases self.l_target - beat,
    {
        let lt = self.l_target as int;
        if beat < 0 || beat >= lt {
            true
        } else {
            self.hands_match(beat, (beat + offset % lt) % lt, 1, 0, person) && self.beats_match(
                beat + 1,
                person,
                offset,
            )
        }
    }

    /// Whether juggler `person` throws what the first juggler throws, `offset` beats later.
    fn offset_matches(&self, person: usize, offset: usize) -> (r: Result<bool, Halt>)
        requires
            self.wf(),
            self.searching(),
        ensures
            r == Ok::<bool, Halt>(self.beats_match(0, person as int, offset as int)),
    {
        let lt = self.l_target;
        let hands = self.config.hands;
        let maxocc = self.config.max_occupancy;
        let mut beat: usize = 0;
        while beat < lt
            invariant
                self.wf(),
                self.searching(),
                lt == self.l_target,
                hands == self.config.hands,
                maxocc == self.config.max_occupancy,
                beat <= lt,
                self.beats_match(0, person as int, offset as int) == self.beats_match(
                    beat as int,
                    person as int,
                    offset as int,
                ),
            decreases lt - beat,
        {
            let mut first_hand: usize = 0;
            let shifted = (beat + offset % lt) % lt;
            let mut hand: usize = 1;
            while hand < hands
                invariant
                    self.wf(),
                    self.searching(),
                    lt == self.l_target,
                    hands == self.config.hands,
                    maxocc == self.config.max_occupancy,
                    beat < lt,
                    shifted < lt,
                    hand >= 1,
                    first_hand < hand,
                    shifted as int == (beat as int + (offset as int) % (lt as int)) % (lt as int),
                    self.beats_match(0, person as int, offset as int) == self.beats_match(
                        beat as int,
                        person as int,
                        offset as int,
                    ),
                    self.beats_match(beat as int, person as int, offset as int) == (self.hands_match(
                        beat as int,
                        shifted as int,
                        hand as int,
                        first_hand as int,
                        person as int,
                    ) && self.beats_match(beat + 1, person as int, offset as int)),
                decreases hands - hand,
            {
                if self.person_number(hand) == person {
                    if first_hand >= hands {
                        return Err(Halt::Internal);
                    }
                    let mut slot: usize = 0;
                    while slot < maxocc
                        invariant
                            self.wf(),
                            self.searching(),
                            lt == self.l_target,
                            hands == self.config.hands,
                            maxocc == self.config.max_occupancy,
                            beat < lt,
                            shifted < lt,
                            hand < hands,
                            first_hand < hands,
                            first_hand < hand,
                            slot <= maxocc,
                            self.person_of(hand as int) == person,
                            shifted as int == (beat as int + (offset as int) % (lt as int)) % (lt as int),
                            self.beats_match(0, person as int, offset as int) == self.beats_match(
                                beat as int,
                                person as int,
                                offset as int,
                            ),
                            self.beats_match(beat as int, person as int, offset as int) == (self.hands_match(
                                beat as int,
                                shifted as int,
                                hand as int,
                                first_hand as int,
                                person as int,
                            ) && self.beats_match(beat + 1, person as int, offset as int)),
                            self.slots_match(beat as int, shifted as int, hand as int, first_hand as int, person as int, 0)
                                == self.slots_match(
                                beat as int,
                                shifted as int,
                                hand as int,
                                first_hand as int,
                                person as int,
                                slot as int,
                            ),
                        ensures
                            self.slots_match(beat as int, shifted as int, hand as int, first_hand as int, person as int, 0),
                        decreases maxocc - slot,
                    {
                        let first_value = self.throw_value.get(beat, first_hand, slot);
                        let first_to = self.throw_to.get(beat, first_hand, slot);
                        let value = self.throw_value.get(shifted, hand, slot);
                        let to = self.throw_to.get(shifted, hand, slot);
                        proof {
                            lemma_grid_index(beat as int, first_hand as int, slot as int, self.throw_to.d0 as int, self.throw_to.d1 as int, self.throw_to.d2 as int);
                            lemma_grid_index(shifted as int, hand as int, slot as int, self.throw_to.d0 as int, self.throw_to.d1 as int, self.throw_to.d2 as int);
                        }
                        let first_self = self.person_number(first_to) == 1;
                        let first_same = first_to == first_hand;
                        let self_throw = self.person_number(to) == person;
                        let same = to == hand;
                        if first_value == 0 && value == 0 {
                            break;
                        }
                        if first_value != value || first_self != self_throw || first_same != same {
                            return Ok(false);
                        }
                        slot = slot + 1;
                    }
                    first_hand = first_hand + 1;
                }
                hand = hand + 1;
            }
            beat = beat + 1;
        }
        Ok(true)
    }

    /// Whether juggler `person` throws what the first juggler throws, at some offset within
    /// the target period.
    spec fn matches_at_some_offset(&self, person: int) -> bool {
        exists|offset: int| 0 <= offset < self.l_target && #[trigger] self.beats_match(0, person, offset)
    }

    /// Whether every juggler throws what the first one throws, at some offset.
    fn symmetric_ok(&self) -> (r: Result<bool, Halt>)
        requires
            self.wf(),
            self.searching(),
        ensures
            r == Ok::<bool, Halt>(
                forall|person: int|
                    2 <= person <= self.config.jugglers ==> #[trigger] self.matches_at_some_offset(person),
            ),
    {
        let lt = self.l_target;
        let jugglers = self.config.jugglers;
        let mut person: usize = 2;
        while person <= jugglers
            invariant
                self.wf(),
                self.searching(),
                lt == self.l_target,
                jugglers == self.config.jugglers,
                person >= 2,
                forall|p: int| 2 <= p < person ==> #[trigger] self.matches_at_some_offset(p),
            decreases jugglers + 1 - person,
        {
            let mut found = false;
            let mut offset: usize = 0;
            while offset < lt && !found
                invariant
                    self.wf(),
                    self.searching(),
                    lt == self.l_target,
                    offset <= lt,
                    person >= 2,
                    person <= jugglers,
                    jugglers == self.config.jugglers,
                    forall|p: int| 2 <= p < person ==> #[trigger] self.matches_at_some_offset(p),
                    forall|o: int| 0 <= o < offset ==> !#[trigger] self.beats_match(0, person as int, o),
                    found ==> offset < lt && self.beats_match(0, person as int, offset as int),
                decreases lt - offset, if found { 0int } else { 1int },
            {
                if self.offset_matches(person, offset)? {
                    found = true;
                } else {
                    offset = offset + 1;
                }
            }
            if !found {
                assert(!self.matches_at_some_offset(person as int));
                return Ok(false);
            }
            assert(self.matches_at_some_offset(person as int));
            person = person + 1;
        }
        Ok(true)
    }

    /// Lame patterns are refused and this one has a self one twice in a row.
    spec fn lame_refused(&self) -> bool {
        &&& self.config.mode == ASYNC
        &&& self.config.lame_flag
        &&& self.config.max_occupancy == 1
        &&& exists|beat: int, hand: int|
            0 <= beat && beat + 1 < self.l_target && 0 <= hand < self.config.hands
                && #[trigger] self.self_one(beat, hand) && self.self_one(beat + 1, hand)
    }

    /// Without full patterns or rotations asked for, no rotation of the pattern that starts
    /// from the first state again (on a rhythm beat) comes before it.
    spec fn rotations_ok(&self) -> bool {
        self.config.fullflag == 0 && self.config.rotflag == 0 ==> forall|beat: int|
            1 <= beat < self.l_target && beat % (self.config.rhythm_period as int) == 0
                && self.same_state(0, beat) ==> #[trigger] self.rotations_order(0, beat, 0, false) >= 0
    }

    /// Whether the completed pattern is one to keep: every required expression matches it,
    /// and it passes the options' other tests.
    fn is_pattern_valid(&mut self, pattern: &Vec<char>) -> (r: Result<bool, Halt>)
        requires
            old(self).wf(),
            old(self).searching(),
        ensures
            final(self).wf(),
            final(self).config == old(self).config,
            final(self).limits == old(self).limits,
            final(self).l_target == old(self).l_target,
            final(self).patterns == old(self).patterns,
            final(self).patterns_found == old(self).patterns_found,
            r matches Ok(true) ==> forall|i: int|
                0 <= i < final(self).config.require.len() ==> regex_matches(
                    #[trigger] final(self).config.require@[i]@,
                    pattern@,
                ),
            match r {
                Ok(_) => true,
                Err(Halt::Stop(GenerationStopReason::TimeLimit(x))) => (old(self).limits.max_time matches Some(d) && x == whole_seconds(d)),
                Err(Halt::Stop(GenerationStopReason::Cancelled)) => old(self).limits.cancelled is Some,
                Err(Halt::Stop(_)) => false,
                Err(Halt::Internal) => true,
            },
            r matches Ok(true) ==> !old(self).lame_refused() && old(self).rotations_ok(),
            r matches Ok(true) && old(self).config.jugglers > 1 && old(self).config.connected_patterns_flag
                ==> forall|p: int| 0 <= p < old(self).config.jugglers ==> #[trigger] old(self).reaches_first(p),
            r matches Ok(true) && old(self).config.jugglers > 1 && old(self).config.symmetric_patterns_flag
                ==> forall|person: int|
                2 <= person <= old(self).config.jugglers ==> #[trigger] final(self).matches_at_some_offset(
                    person,
                ),
            final(self).state == old(self).state,
            final(self).throw_to == old(self).throw_to,
            final(self).throw_value == old(self).throw_value,
            old(self).config.jugglers <= 1 ==> *final(self) == *old(self),
            r matches Ok(v) ==> v == ((forall|i: int|
                0 <= i < old(self).config.require.len() ==> regex_matches(
                    #[trigger] old(self).config.require@[i]@,
                    pattern@,
                )) && !old(self).lame_refused() && old(self).rotations_ok() && (old(self).config.jugglers > 1
                && old(self).config.connected_patterns_flag ==> forall|p: int|
                0 <= p < old(self).config.jugglers ==> #[trigger] old(self).reaches_first(p)) && (
            old(self).config.jugglers > 1 && !old(self).config.juggler_permutations_flag
                ==> final(self).all_in_order()) && (old(self).config.jugglers > 1
                && old(self).config.symmetric_patterns_flag ==> forall|person: int|
                2 <= person <= old(self).config.jugglers ==> #[trigger] final(self).matches_at_some_offset(
                    person,
                ))),
            old(self).config.jugglers <= 1 && old(self).limits.cancelled is None
                && old(self).limits.max_time is None ==> r is Ok,
            old(self).pattern_values_in_range() && old(self).limits.cancelled is None
                && old(self).limits.max_time is None ==> r is Ok,
    {
        if self.required_miss(pattern) {
            return Ok(false);
        }
        if self.config.mode == ASYNC && self.config.lame_flag && self.config.max_occupancy == 1
            && self.has_lame_throws() {
            return Ok(false);
        }
        if self.config.fullflag == 0 && self.config.rotflag == 0 {
            let lt = self.l_target;
            let mut beat: usize = 1;
            while beat < lt
                invariant
                    self.wf(),
                    self.searching(),
                    self.config == old(self).config,
                    self.limits == old(self).limits,
                    self.l_target == old(self).l_target,
                    self.patterns == old(self).patterns,
                    self.patterns_found == old(self).patterns_found,
                    lt == self.l_target,
                    forall|i: int|
                        0 <= i < self.config.require.len() ==> regex_matches(
                            #[trigger] self.config.require@[i]@,
                            pattern@,
                        ),
                    *self == *old(self),
                    1 <= beat,
                    self.config.fullflag == 0 && self.config.rotflag == 0,
                    forall|b: int|
                        1 <= b < beat && b % (self.config.rhythm_period as int) == 0 && self.same_state(0, b)
                            ==> #[trigger] self.rotations_order(0, b, 0, false) >= 0,
                decreases lt - beat,
            {
                if beat % self.config.rhythm_period == 0 && self.states_equal(0, beat) {
                    assert(self.same_state(0, beat as int));
                    let c = self.compare_rotations(0, beat);
                    match c {
                        Ok(v) => {
                            if v < 0 {
                                return Ok(false);
                            }
                        },
                        Err(e) => {
                            return Err(e);
                        },
                    }
                }
                beat = beat + 1;
            }
        }
        assert(self.rotations_ok());
        assert(!self.lame_refused());
        if self.config.jugglers > 1 && self.config.connected_patterns_flag {
            if !self.all_connected() {
                return Ok(false);
            }
        }
        assert(old(self).pattern_values_in_range() ==> self.pattern_values_in_range()) by {
            if old(self).pattern_values_in_range() {
                assert forall|beat: int| 0 <= beat < self.l_target implies #[trigger] self.values_in_range(beat) by {
                    assert(old(self).values_in_range(beat));
                }
            }
        }
        if self.config.jugglers > 1 && !self.config.juggler_permutations_flag {
            match self.jugglers_in_order() {
                Ok(ok) => {
                    if !ok {
                        return Ok(false);
                    }
                },
                Err(_) => {
                    return Err(Halt::Internal);
                },
            }
        }
        if self.config.jugglers > 1 && self.config.symmetric_patterns_flag {
            match self.symmetric_ok() {
                Ok(ok) => {
                    if !ok {
                        return Ok(false);
                    }
                },
                Err(_) => {
                    return Err(Halt::Internal);
                },
            }
        }
        Ok(true)
    }
}

} // verus!

verus! {

/// The characters of `v` without those up to the space at either end.
fn trim_control_chars(v: &Vec<char>) -> (r: Vec<char>)
    ensures
        r@ == trim_controls(v@),
{
    let mut lo: usize = 0;
    let mut hi: usize = v.len();
    assert(v@.subrange(0, v.len() as int) =~= v@);
    while lo < hi && (v[lo] <= ' ' || v[hi - 1] <= ' ')
        invariant
            lo <= hi <= v.len(),
            trim_controls(v@) == trim_controls(v@.subrange(lo as int, hi as int)),
        decreases hi - lo,
    {
        let ghost t = v@.subrange(lo as int, hi as int);
        if v[lo] <= ' ' {
            assert(t.drop_first() =~= v@.subrange(lo as int + 1, hi as int));
            lo = lo + 1;
        } else {
            assert(t.drop_last() =~= v@.subrange(lo as int, hi as int - 1));
            hi = hi - 1;
        }
    }
    slice_of(v, lo, hi)
}

impl SiteswapGenerator {
    /// The first hand of juggler `person`.
    fn low_hand(&self, person: usize) -> (r: usize)
        requires
            self.wf(),
        ensures
            r < self.config.hands,
            forall|h: int| 0 <= h < r ==> self.person_of(h) != person,
            self.person_of(r as int) == person || (r == 0 && forall|h: int|
                0 <= h < self.config.hands ==> self.person_of(h) != person),
            r == self.first_hand_from(0, person as int),
    {
        let hands = self.config.hands;
        let mut hand: usize = 0;
        while hand < hands
            invariant
                self.wf(),
                hands == self.config.hands,
                hand <= hands,
                forall|h: int| 0 <= h < hand ==> self.person_of(h) != person,
                self.first_hand_from(0, person as int) == self.first_hand_from(hand as int, person as int),
            decreases hands - hand,
        {
            if self.person_number(hand) == person {
                return hand;
            }
            hand = hand + 1;
        }
        0
    }

    /// The first hand from `h` on of juggler `person`, or 0 when there is none.
    spec fn first_hand_from(&self, h: int, person: int) -> int
        decreases self.config.hands - h,
    {
        if h < 0 || h >= self.config.hands {
            0
        } else if self.person_of(h) == person {
            h
        } else {
            self.first_hand_from(h + 1, person)
        }
    }

    /// The end of the run of hands of juggler `person` that starts at `h`.
    spec fn block_end(&self, h: int, person: int) -> int
        decreases self.config.hands - h,
    {
        if 0 <= h < self.config.hands && self.person_of(h) == person {
            self.block_end(h + 1, person)
        } else {
            h
        }
    }

    /// The start of the run of hands of juggler `person` that ends at `scan`.
    spec fn block_start(&self, scan: int, person: int) -> int
        decreases scan,
    {
        if scan > 0 && self.person_of(scan - 1) == person {
            self.block_start(scan - 1, person)
        } else {
            scan
        }
    }

    /// How many hands from `h` up to `high` throw on beat `beat`.
    spec fn throwing_count(&self, beat: int, h: int, high: int) -> int
        decreases high - h,
    {
        if h >= high {
            0
        } else {
            (if self.rhythm_at(beat, h) != 0 {
                1int
            } else {
                0int
            }) + self.throwing_count(beat, h + 1, high)
        }
    }

    /// The text `buf` after the throws of hand `hand` on beat `beat` from slot `slot` on are
    /// written, and whether a space must come before a throw written as `X`: each value, then
    /// `x` for a sync throw to the other hand, `p` (and the juggler, with more than two) for
    /// a pass, and `/` between the passes of a multiplex.
    spec fn write_slots(&self, beat: int, hand: int, person: int, low: int, multiplex: bool, slot: int, buf: Seq<char>, xs: bool) -> (Seq<char>, bool)
        decreases self.config.max_occupancy - slot,
    {
        if slot < 0 || slot >= self.config.max_occupancy || self.throw_value.at(beat, hand, slot) == 0 {
            (buf, xs)
        } else {
            let value = self.throw_value.at(beat, hand, slot);
            let b1 = if value == 33 && xs {
                buf.push(' ')
            } else {
                buf
            };
            let b2 = b1 + throw_text(value as nat);
            let target = self.throw_to.at(beat, hand, slot) as int;
            let tp = self.person_of(target);
            let b3 = if self.config.hands > 1 {
                let bx = if self.config.mode == SYNC && target - self.block_start(target, tp) != hand - low {
                    b2.push('x')
                } else {
                    b2
                };
                if tp != person {
                    if self.config.jugglers > 2 {
                        bx.push('p') + decimal(tp as nat)
                    } else {
                        bx.push('p')
                    }
                } else {
                    bx
                }
            } else {
                b2
            };
            let slash = multiplex && self.config.jugglers > 1 && slot + 1 != self.config.max_occupancy
                && self.throw_value.at(beat, hand, slot + 1) > 0;
            let b4 = if slash {
                b3.push('/')
            } else {
                b3
            };
            self.write_slots(beat, hand, person, low, multiplex, slot + 1, b4, !slash)
        }
    }

    /// The text `buf` after the hands from `hand` up to `high` of juggler `person` write
    /// their throws on beat `beat`: a multiplex in brackets, `0` for an empty hand, and
    /// commas between the hands of a sync beat.
    spec fn write_hands(&self, beat: int, person: int, low: int, high: int, paren: bool, hand: int, buf: Seq<char>, xs: bool) -> (Seq<char>, bool)
        decreases high - hand,
    {
        if hand < 0 || hand >= high {
            (buf, xs)
        } else if self.rhythm_at(beat, hand) == 0 {
            self.write_hands(beat, person, low, high, paren, hand + 1, buf, xs)
        } else {
            let multiplex = self.config.max_occupancy > 1 && self.throw_value.at(beat, hand, 1) > 0;
            let b0 = if multiplex {
                buf.push('[')
            } else {
                buf
            };
            let x0 = if multiplex {
                false
            } else {
                xs
            };
            let w = self.write_slots(beat, hand, person, low, multiplex, 0, b0, x0);
            let got = self.config.max_occupancy > 0 && self.throw_value.at(beat, hand, 0) > 0;
            let b2 = if !got {
                w.0.push('0')
            } else {
                w.0
            };
            let x2 = if !got {
                true
            } else {
                w.1
            };
            let b3 = if multiplex {
                b2.push(']')
            } else {
                b2
            };
            let x3 = if multiplex {
                false
            } else {
                x2
            };
            let comma = hand + 1 < high && paren;
            let b4 = if comma {
                b3.push(',')
            } else {
                b3
            };
            let x4 = if comma {
                false
            } else {
                x3
            };
            self.write_hands(beat, person, low, high, paren, hand + 1, b4, x4)
        }
    }

    /// The text `buf` after the jugglers from `person` on write their throws on beat
    /// `beat`, separated by `|`; a juggler throwing with both hands is in parentheses.
    spec fn write_persons(&self, beat: int, person: int, buf: Seq<char>, xs: bool) -> (Seq<char>, bool)
        decreases self.config.jugglers + 1 - person,
    {
        if person < 1 || person > self.config.jugglers {
            (buf, xs)
        } else {
            let low = self.first_hand_from(0, person);
            let high = self.block_end(low, person);
            let count = self.throwing_count(beat, low, high);
            let paren = count > 1;
            let b0 = if paren {
                buf.push('(')
            } else {
                buf
            };
            let x0 = if paren {
                false
            } else {
                xs
            };
            let w = self.write_hands(beat, person, low, high, paren, low, b0, x0);
            let b1 = if count > 0 {
                if paren {
                    w.0.push(')')
                } else {
                    w.0
                }
            } else {
                buf
            };
            let x1 = if count > 0 {
                w.1
            } else {
                xs
            };
            let b2 = if person < self.config.jugglers {
                b1.push('|')
            } else {
                b1
            };
            self.write_persons(beat, person + 1, b2, x1)
        }
    }

    /// The text `buf` with the throws of beat `beat` written after it, when some hand
    /// throws on that beat: with several jugglers in angle brackets.
    spec fn write_beat(&self, beat: int, buf: Seq<char>) -> Seq<char> {
        if forall|h: int| 0 <= h < self.config.hands ==> #[trigger] self.rhythm_at(beat, h) == 0 {
            buf
        } else {
            let several = self.config.jugglers > 1;
            let b0 = if several {
                buf.push('<')
            } else {
                buf
            };
            let x0 = if several {
                false
            } else {
                buf.len() > 0
            };
            let w = self.write_persons(beat, 1, b0, x0);
            if several {
                w.0.push('>')
            } else {
                w.0
            }
        }
    }

    /// Writes the throws of `beat` in siteswap notation.
    fn output_beat(&self, beat: usize, buffer: &mut Vec<char>)
        requires
            self.wf(),
            beat < self.config.slot_size,
        ensures
            final(buffer)@ == self.write_beat(beat as int, old(buffer)@),
    {
        let hands = self.config.hands;
        let maxocc = self.config.max_occupancy;
        let jugglers = self.config.jugglers;
        let mut any = false;
        let mut hand: usize = 0;
        while hand < hands
            invariant
                self.wf(),
                beat < self.config.slot_size,
                hands == self.config.hands,
                hand <= hands,
                any <==> exists|h: int| 0 <= h < hand && #[trigger] self.rhythm_at(beat as int, h) != 0,
            decreases hands - hand,
        {
            let rh = self.rhythm(beat, hand, 0);
            assert(rh == self.rhythm_at(beat as int, hand as int));
            if rh != 0 {
                any = true;
            }
            hand = hand + 1;
        }
        if !any {
            return;
        }
        let mut x_space = buffer.len() > 0;
        if jugglers > 1 {
            buffer.push('<');
            x_space = false;
        }
        let ghost pb = buffer@;
        let ghost px = x_space;
        let mut person: usize = 1;
        while person <= jugglers
            invariant
                self.wf(),
                beat < self.config.slot_size,
                hands == self.config.hands,
                maxocc == self.config.max_occupancy,
                jugglers == self.config.jugglers,
                jugglers <= hands,
                person >= 1,
                self.write_persons(beat as int, 1, pb, px) == self.write_persons(
                    beat as int,
                    person as int,
                    buffer@,
                    x_space,
                ),
            decreases jugglers + 1 - person,
        {
            let low_hand = self.low_hand(person);
            let mut high_hand = low_hand;
            while high_hand < hands && self.person_number(high_hand) == person
                invariant
                    self.wf(),
                    hands == self.config.hands,
                    low_hand <= high_hand <= hands,
                    self.block_end(low_hand as int, person as int) == self.block_end(
                        high_hand as int,
                        person as int,
                    ),
                decreases hands - high_hand,
            {
                high_hand = high_hand + 1;
            }
            assert(self.block_end(low_hand as int, person as int) == high_hand);
            let mut throwing_hands: usize = 0;
            let mut hand = low_hand;
            while hand < high_hand
                invariant
                    self.wf(),
                    beat < self.config.slot_size,
                    hands == self.config.hands,
                    low_hand <= hand <= high_hand <= hands,
                    throwing_hands <= hand - low_hand,
                    throwing_hands + self.throwing_count(beat as int, hand as int, high_hand as int)
                        == self.throwing_count(beat as int, low_hand as int, high_hand as int),
                decreases high_hand - hand,
            {
                if self.rhythm(beat, hand, 0) != 0 {
                    throwing_hands = throwing_hands + 1;
                }
                hand = hand + 1;
            }
            let ghost before_person = buffer@;
            let ghost before_x = x_space;
            if throwing_hands > 0 {
                let parenthesized = throwing_hands > 1;
                if parenthesized {
                    buffer.push('(');
                    x_space = false;
                }
                let ghost hb = buffer@;
                let ghost hx = x_space;
                let mut hand = low_hand;
                while hand < high_hand
                    invariant
                        self.wf(),
                        beat < self.config.slot_size,
                        hands == self.config.hands,
                        maxocc == self.config.max_occupancy,
                        jugglers == self.config.jugglers,
                        low_hand <= hand <= high_hand <= hands,
                        self.write_hands(beat as int, person as int, low_hand as int, high_hand as int, parenthesized, low_hand as int, hb, hx)
                            == self.write_hands(
                            beat as int,
                            person as int,
                            low_hand as int,
                            high_hand as int,
                            parenthesized,
                            hand as int,
                            buffer@,
                            x_space,
                        ),
                    decreases high_hand - hand,
                {
                    if self.rhythm(beat, hand, 0) != 0 {
                        let multiplex = maxocc > 1 && self.throw_value.get(beat, hand, 1) > 0;
                        if multiplex {
                            buffer.push('[');
                            x_space = false;
                        }
                        let ghost sb = buffer@;
                        let ghost sx = x_space;
                        let mut got_throw = false;
                        let mut slot: usize = 0;
                        while slot < maxocc && self.throw_value.get(beat, hand, slot) > 0
                            invariant
                                self.wf(),
                                beat < self.config.slot_size,
                                hands == self.config.hands,
                                maxocc == self.config.max_occupancy,
                                jugglers == self.config.jugglers,
                                low_hand <= hand < high_hand <= hands,
                                slot <= maxocc,
                                got_throw <==> slot > 0,
                                slot > 0 ==> self.throw_value.at(beat as int, hand as int, 0) > 0,
                                self.write_slots(beat as int, hand as int, person as int, low_hand as int, multiplex, 0, sb, sx)
                                    == self.write_slots(
                                    beat as int,
                                    hand as int,
                                    person as int,
                                    low_hand as int,
                                    multiplex,
                                    slot as int,
                                    buffer@,
                                    x_space,
                                ),
                            decreases maxocc - slot,
                        {
                            got_throw = true;
                            let ghost b_at = buffer@;
                            let ghost x_at = x_space;
                            let value = self.throw_value.get(beat, hand, slot);
                            if value == 33 && x_space {
                                buffer.push(' ');
                            }
                            output_throw_value(value, buffer);
                            x_space = true;
                            if hands > 1 {
                                let target = self.throw_to.get(beat, hand, slot);
                                proof {
                                    lemma_grid_index(beat as int, hand as int, slot as int, self.throw_to.d0 as int, self.throw_to.d1 as int, self.throw_to.d2 as int);
                                }
                                let target_person = self.person_number(target);
                                if self.config.mode == SYNC {
                                    let mut destination_hand: usize = 0;
                                    let mut scan = target;
                                    while scan > 0 && self.person_number(scan - 1) == target_person
                                        invariant
                                            self.wf(),
                                            hands == self.config.hands,
                                            scan <= target < hands,
                                            destination_hand == target - scan,
                                            target_person == self.person_of(target as int),
                                            self.block_start(target as int, target_person as int)
                                                == self.block_start(scan as int, target_person as int),
                                        decreases scan,
                                    {
                                        scan = scan - 1;
                                        destination_hand = destination_hand + 1;
                                    }
                                    if destination_hand != hand - low_hand {
                                        buffer.push('x');
                                    }
                                }
                                if target_person != person {
                                    buffer.push('p');
                                    if jugglers > 2 {
                                        push_decimal(buffer, target_person as u64);
                                    }
                                }
                            }
                            if multiplex && jugglers > 1 && slot + 1 != maxocc
                                && self.throw_value.get(beat, hand, slot + 1) > 0 {
                                buffer.push('/');
                                x_space = false;
                            }
                            slot = slot + 1;
                        }
                        if !got_throw {
                            buffer.push('0');
                            x_space = true;
                        }
                        if multiplex {
                            buffer.push(']');
                            x_space = false;
                        }
                        if hand + 1 < high_hand && parenthesized {
                            buffer.push(',');
                            x_space = false;
                        }
                    }
                    hand = hand + 1;
                }
                if parenthesized {
                    buffer.push(')');
                }
            }
            if person < jugglers {
                buffer.push('|');
            }
            person = person + 1;
        }
        if jugglers > 1 {
            buffer.push('>');
        }
    }

    /// Records a pattern that passed every test.
    fn output_pattern(&mut self, pattern: &Vec<char>)
        requires
            old(self).wf(),
        ensures
            final(self).config == old(self).config,
            final(self).limits == old(self).limits,
            final(self).l_target == old(self).l_target,
            final(self).state == old(self).state,
            final(self).throws_left == old(self).throws_left,
            final(self).holes == old(self).holes,
            final(self).throw_to == old(self).throw_to,
            final(self).throw_value == old(self).throw_value,
            final(self).mp_filter == old(self).mp_filter,
            final(self).connections == old(self).connections,
            final(self).patterns_found == old(self).patterns_found,
            final(self).patterns.len() == old(self).patterns.len() + 1,
            forall|i: int| 0 <= i < old(self).patterns.len() ==> #[trigger] final(self).patterns@[i]
                == old(self).patterns@[i],
            final(self).patterns@[old(self).patterns.len() as int].config@ == trim_controls(pattern@),
            final(self).patterns@[old(self).patterns.len() as int].notation@ == "siteswap"@,
    {
        let mut display: Vec<char> = Vec::new();
        let mut excited = false;
        let n = self.config.n;
        let asynch = self.config.mode == ASYNC;
        if self.config.groundflag != 1 {
            if self.config.sequence_flag {
                if asynch {
                    let pad = n - if self.starting_sequence.len() < n { self.starting_sequence.len() } else { n };
                    let mut k: usize = 0;
                    while k < pad
                        decreases pad - k,
                    {
                        display.push(' ');
                        k = k + 1;
                    }
                }
                push_all(&mut display, &self.starting_sequence);
                display.push(' ');
                display.push(' ');
            } else {
                excited = !self.is_ground_state(0);
                if excited {
                    display.push('*');
                    display.push(' ');
                } else {
                    display.push(' ');
                    display.push(' ');
                }
            }
        }
        push_all(&mut display, pattern);
        if self.config.groundflag != 1 {
            if self.config.sequence_flag {
                display.push(' ');
                display.push(' ');
                push_all(&mut display, &self.ending_sequence);
                if asynch {
                    let pad = n - if self.ending_sequence.len() < n { self.ending_sequence.len() } else { n };
                    let mut k: usize = 0;
                    while k < pad
                        decreases pad - k,
                    {
                        display.push(' ');
                        k = k + 1;
                    }
                }
            } else if excited {
                display.push(' ');
                display.push('*');
            } else {
                display.push(' ');
                display.push(' ');
            }
        }
        let trimmed = trim_control_chars(pattern);
        let p = GeneratedPattern {
            display: string_from_chars(&display),
            notation: "siteswap".to_owned(),
            config: string_from_chars(&trimmed),
        };
        self.patterns.push(p);
    }
}

} // verus!

verus! {

impl SiteswapGenerator {
    /// Stores in the state at beat 1 what the state at beat 0 holds beyond the ground state
    /// moved on `start_beats` beats; false when the ground state does not fit under it.
    fn fill_start_difference(&mut self, start_beats: usize) -> (r: bool)
        requires
            old(self).wf(),
        ensures
            final(self).wf(),
            final(self).config == old(self).config,
            final(self).limits == old(self).limits,
            final(self).l_target == old(self).l_target,
            final(self).patterns == old(self).patterns,
            final(self).patterns_found == old(self).patterns_found,
            final(self).throws_left == old(self).throws_left,
            final(self).holes == old(self).holes,
            final(self).throw_to == old(self).throw_to,
            final(self).throw_value == old(self).throw_value,
            final(self).mp_filter == old(self).mp_filter,
            final(self).connections == old(self).connections,
            final(self).starting_sequence == old(self).starting_sequence,
            final(self).ending_sequence == old(self).ending_sequence,
            !r ==> start_beats < old(self).config.ground_state_length,
            r <==> forall|y: int, z: int|
                0 <= y < old(self).config.hands && 0 <= z < old(self).config.ht ==> #[trigger] old(
                    self,
                ).start_excess(y, z, start_beats as int) <= old(self).held_at_start(y, z),
            r ==> final(self).state.d0 == old(self).state.d0 && final(self).state.d1 == old(
                self,
            ).state.d1 && final(self).state.d2 == old(self).state.d2,
            r ==> forall|x: int, y: int, z: int|
                old(self).state.in_grid(x, y, z) ==> #[trigger] final(self).state.at(x, y, z)
                    == if x == 1 && z < old(self).config.ht {
                    (old(self).held_at_start(y, z) - old(self).start_excess(y, z, start_beats as int)) as usize
                } else {
                    old(self).state.at(x, y, z)
                },
    {
        let hands = self.config.hands;
        let ht = self.config.ht;
        let gsl = self.config.ground_state_length;
        let mut hand: usize = 0;
        while hand < hands
            invariant
                self.wf(),
                self.config == old(self).config,
                self.limits == old(self).limits,
                self.l_target == old(self).l_target,
                self.patterns == old(self).patterns,
                self.patterns_found == old(self).patterns_found,
                self.throws_left == old(self).throws_left,
                self.holes == old(self).holes,
                self.throw_to == old(self).throw_to,
                self.throw_value == old(self).throw_value,
                self.mp_filter == old(self).mp_filter,
                self.connections == old(self).connections,
                self.starting_sequence == old(self).starting_sequence,
                self.ending_sequence == old(self).ending_sequence,
                old(self).wf(),
                self.state.d0 == old(self).state.d0,
                self.state.d1 == old(self).state.d1,
                self.state.d2 == old(self).state.d2,
                hands == self.config.hands,
                ht == self.config.ht,
                gsl == self.config.ground_state_length,
                hand <= hands,
                forall|y: int, z: int|
                    0 <= y < hand && 0 <= z < ht ==> #[trigger] old(self).start_excess(y, z, start_beats as int)
                        <= old(self).held_at_start(y, z),
                forall|x: int, y: int, z: int|
                    old(self).state.in_grid(x, y, z) ==> #[trigger] self.state.at(x, y, z)
                        == if x == 1 && z < ht && y < hand {
                        (old(self).held_at_start(y, z) - old(self).start_excess(y, z, start_beats as int)) as usize
                    } else {
                        old(self).state.at(x, y, z)
                    },
            decreases hands - hand,
        {
            let mut index: usize = 0;
            while index < ht
                invariant
                    self.wf(),
                    self.config == old(self).config,
                    self.limits == old(self).limits,
                    self.l_target == old(self).l_target,
                    self.patterns == old(self).patterns,
                    self.patterns_found == old(self).patterns_found,
                    self.throws_left == old(self).throws_left,
                    self.holes == old(self).holes,
                    self.throw_to == old(self).throw_to,
                    self.throw_value == old(self).throw_value,
                    self.mp_filter == old(self).mp_filter,
                    self.connections == old(self).connections,
                    self.starting_sequence == old(self).starting_sequence,
                    self.ending_sequence == old(self).ending_sequence,
                    old(self).wf(),
                    self.state.d0 == old(self).state.d0,
                    self.state.d1 == old(self).state.d1,
                    self.state.d2 == old(self).state.d2,
                    hands == self.config.hands,
                    ht == self.config.ht,
                    gsl == self.config.ground_state_length,
                    hand < hands,
                    index <= ht,
                    forall|y: int, z: int|
                        0 <= y < hand && 0 <= z < ht ==> #[trigger] old(self).start_excess(y, z, start_beats as int)
                            <= old(self).held_at_start(y, z),
                    forall|z: int|
                        0 <= z < index ==> #[trigger] old(self).start_excess(hand as int, z, start_beats as int)
                            <= old(self).held_at_start(hand as int, z),
                    forall|x: int, y: int, z: int|
                        old(self).state.in_grid(x, y, z) ==> #[trigger] self.state.at(x, y, z)
                            == if x == 1 && z < ht && (y < hand || (y == hand && z < index)) {
                            (old(self).held_at_start(y, z) - old(self).start_excess(y, z, start_beats as int)) as usize
                        } else {
                            old(self).state.at(x, y, z)
                        },
                decreases ht - index,
            {
                let v = if start_beats < gsl && index < gsl - start_beats {
                    self.config.ground_state[hand][index + start_beats]
                } else {
                    0
                };
                assert(v == old(self).start_excess(hand as int, index as int, start_beats as int));
                self.state.set(1, hand, index, v);
                let held = self.state.get(0, hand, index);
                if v > held {
                    return false;
                }
                self.state.set(1, hand, index, held - v);
                index = index + 1;
            }
            hand = hand + 1;
        }
        true
    }

    /// Stores in the state at beat 1 what the ground state holds beyond the state at beat 0
    /// moved on `end_beats` beats; false when that state does not fit under the ground state.
    fn fill_end_difference(&mut self, end_beats: usize) -> (r: bool)
        requires
            old(self).wf(),
        ensures
            final(self).wf(),
            final(self).config == old(self).config,
            final(self).limits == old(self).limits,
            final(self).l_target == old(self).l_target,
            final(self).patterns == old(self).patterns,
            final(self).patterns_found == old(self).patterns_found,
            final(self).throws_left == old(self).throws_left,
            final(self).holes == old(self).holes,
            final(self).throw_to == old(self).throw_to,
            final(self).throw_value == old(self).throw_value,
            final(self).mp_filter == old(self).mp_filter,
            final(self).connections == old(self).connections,
            final(self).starting_sequence == old(self).starting_sequence,
            final(self).ending_sequence == old(self).ending_sequence,
            !r ==> end_beats < old(self).config.ht,
            r <==> forall|y: int, z: int|
                0 <= y < old(self).config.hands && 0 <= z < old(self).config.ground_state_length ==> #[trigger] old(
                    self,
                ).end_excess(y, z, end_beats as int) <= old(self).ground_at(y, z),
            r ==> final(self).state.d0 == old(self).state.d0 && final(self).state.d1 == old(
                self,
            ).state.d1 && final(self).state.d2 == old(self).state.d2,
            r ==> forall|x: int, y: int, z: int|
                old(self).state.in_grid(x, y, z) ==> #[trigger] final(self).state.at(x, y, z)
                    == if x == 1 && z < old(self).config.ground_state_length {
                    (old(self).ground_at(y, z) - old(self).end_excess(y, z, end_beats as int)) as usize
                } else {
                    old(self).state.at(x, y, z)
                },
    {
        let hands = self.config.hands;
        let ht = self.config.ht;
        let gsl = self.config.ground_state_length;
        let mut hand: usize = 0;
        while hand < hands
            invariant
                self.wf(),
                self.config == old(self).config,
                self.limits == old(self).limits,
                self.l_target == old(self).l_target,
                self.patterns == old(self).patterns,
                self.patterns_found == old(self).patterns_found,
                self.throws_left == old(self).throws_left,
                self.holes == old(self).holes,
                self.throw_to == old(self).throw_to,
                self.throw_value == old(self).throw_value,
                self.mp_filter == old(self).mp_filter,
                self.connections == old(self).connections,
                self.starting_sequence == old(self).starting_sequence,
                self.ending_sequence == old(self).ending_sequence,
                old(self).wf(),
                self.state.d0 == old(self).state.d0,
                self.state.d1 == old(self).state.d1,
                self.state.d2 == old(self).state.d2,
                hands == self.config.hands,
                ht == self.config.ht,
                gsl == self.config.ground_state_length,
                hand <= hands,
                forall|y: int, z: int|
                    0 <= y < hand && 0 <= z < gsl ==> #[trigger] old(self).end_excess(y, z, end_beats as int)
                        <= old(self).ground_at(y, z),
                forall|x: int, y: int, z: int|
                    old(self).state.in_grid(x, y, z) ==> #[trigger] self.state.at(x, y, z)
                        == if x == 1 && z < gsl && y < hand {
                        (old(self).ground_at(y, z) - old(self).end_excess(y, z, end_beats as int)) as usize
                    } else {
                        old(self).state.at(x, y, z)
                    },
            decreases hands - hand,
        {
            let mut index: usize = 0;
            while index < gsl
                invariant
                    self.wf(),
                    self.config == old(self).config,
                    self.limits == old(self).limits,
                    self.l_target == old(self).l_target,
                    self.patterns == old(self).patterns,
                    self.patterns_found == old(self).patterns_found,
                    self.throws_left == old(self).throws_left,
                    self.holes == old(self).holes,
                    self.throw_to == old(self).throw_to,
                    self.throw_value == old(self).throw_value,
                    self.mp_filter == old(self).mp_filter,
                    self.connections == old(self).connections,
                    self.starting_sequence == old(self).starting_sequence,
                    self.ending_sequence == old(self).ending_sequence,
                    old(self).wf(),
                    self.state.d0 == old(self).state.d0,
                    self.state.d1 == old(self).state.d1,
                    self.state.d2 == old(self).state.d2,
                    hands == self.config.hands,
                    ht == self.config.ht,
                    gsl == self.config.ground_state_length,
                    hand < hands,
                    index <= gsl,
                    forall|y: int, z: int|
                        0 <= y < hand && 0 <= z < gsl ==> #[trigger] old(self).end_excess(y, z, end_beats as int)
                            <= old(self).ground_at(y, z),
                    forall|z: int|
                        0 <= z < index ==> #[trigger] old(self).end_excess(hand as int, z, end_beats as int)
                            <= old(self).ground_at(hand as int, z),
                    forall|x: int, y: int, z: int|
                        old(self).state.in_grid(x, y, z) ==> #[trigger] self.state.at(x, y, z)
                            == if x == 1 && z < gsl && (y < hand || (y == hand && z < index)) {
                            (old(self).ground_at(y, z) - old(self).end_excess(y, z, end_beats as int)) as usize
                        } else {
                            old(self).state.at(x, y, z)
                        },
                decreases gsl - index,
            {
                let v = if end_beats < ht && index < ht - end_beats {
                    self.state.get(0, hand, index + end_beats)
                } else {
                    0
                };
                assert(v == old(self).end_excess(hand as int, index as int, end_beats as int));
                self.state.set(1, hand, index, v);
                let ground = self.config.ground_state[hand][index];
                if v > ground {
                    return false;
                }
                self.state.set(1, hand, index, ground - v);
                index = index + 1;
            }
            hand = hand + 1;
        }
        true
    }

    /// What the ground state holds at position `index + beats` of hand `hand`, or nothing
    /// past its end.
    spec fn start_excess(&self, hand: int, index: int, beats: int) -> usize {
        if beats < self.config.ground_state_length && index < self.config.ground_state_length - beats {
            self.config.ground_state@[hand]@[index + beats]
        } else {
            0
        }
    }

    /// What the state at beat 0 holds at position `index + beats` of hand `hand`, or nothing
    /// past the highest throw.
    spec fn end_excess(&self, hand: int, index: int, beats: int) -> usize {
        if beats < self.config.ht && index < self.config.ht - beats {
            self.state.at(0, hand, index + beats)
        } else {
            0
        }
    }

    spec fn held_at_start(&self, hand: int, index: int) -> usize {
        self.state.at(0, hand, index)
    }

    spec fn ground_at(&self, hand: int, index: int) -> usize {
        self.config.ground_state@[hand]@[index]
    }

    /// Clears the throws of `beat` for every hand.
    fn clear_beat(&mut self, beat: usize)
        requires
            old(self).wf(),
            beat < old(self).config.slot_size,
        ensures
            final(self).wf(),
            final(self).config == old(self).config,
            final(self).limits == old(self).limits,
            final(self).l_target == old(self).l_target,
            final(self).patterns == old(self).patterns,
            final(self).patterns_found == old(self).patterns_found,
            final(self).throws_cleared(&*old(self), beat as int),
            final(self).state == old(self).state,
            final(self).throws_left == old(self).throws_left,
            final(self).holes == old(self).holes,
            final(self).mp_filter == old(self).mp_filter,
            final(self).connections == old(self).connections,
            final(self).starting_sequence == old(self).starting_sequence,
            final(self).ending_sequence == old(self).ending_sequence,
    {
        let hands = self.config.hands;
        let maxocc = self.config.max_occupancy;
        let mut hand: usize = 0;
        while hand < hands
            invariant
                self.wf(),
                self.config == old(self).config,
                self.limits == old(self).limits,
                self.l_target == old(self).l_target,
                self.patterns == old(self).patterns,
                self.patterns_found == old(self).patterns_found,
                self.state == old(self).state,
                self.throws_left == old(self).throws_left,
                self.holes == old(self).holes,
                self.mp_filter == old(self).mp_filter,
                self.connections == old(self).connections,
                self.starting_sequence == old(self).starting_sequence,
                self.ending_sequence == old(self).ending_sequence,
                old(self).wf(),
                hands == self.config.hands,
                maxocc == self.config.max_occupancy,
                beat < self.config.slot_size,
                hand <= hands,
                self.throws_cleared_upto(&*old(self), beat as int, hand as int, 0),
            decreases hands - hand,
        {
            let mut slot: usize = 0;
            while slot < maxocc
                invariant
                    self.wf(),
                    self.config == old(self).config,
                    self.limits == old(self).limits,
                    self.l_target == old(self).l_target,
                    self.patterns == old(self).patterns,
                    self.patterns_found == old(self).patterns_found,
                    self.state == old(self).state,
                    self.throws_left == old(self).throws_left,
                    self.holes == old(self).holes,
                    self.mp_filter == old(self).mp_filter,
                    self.connections == old(self).connections,
                    self.starting_sequence == old(self).starting_sequence,
                    self.ending_sequence == old(self).ending_sequence,
                    old(self).wf(),
                    hands == self.config.hands,
                    maxocc == self.config.max_occupancy,
                    beat < self.config.slot_size,
                    hand < hands,
                    slot <= maxocc,
                    self.throws_cleared_upto(&*old(self), beat as int, hand as int, slot as int),
                decreases maxocc - slot,
            {
                self.throw_value.set(beat, hand, slot, 0);
                self.throw_to.set(beat, hand, slot, hand);
                slot = slot + 1;
            }
            assert(self.throws_cleared_upto(&*old(self), beat as int, hand as int + 1, 0));
            hand = hand + 1;
        }
    }

    /// Takes one object out of the state at beat 1, the lowest position first and the first
    /// hand first there, and gives its hand and position.
    fn take_destination(&mut self, limit: usize) -> (r: Option<(usize, usize)>)
        requires
            old(self).wf(),
            limit <= old(self).config.ground_state_length,
        ensures
            final(self).wf(),
            final(self).config == old(self).config,
            final(self).limits == old(self).limits,
            final(self).l_target == old(self).l_target,
            final(self).patterns == old(self).patterns,
            final(self).patterns_found == old(self).patterns_found,
            final(self).throws_left == old(self).throws_left,
            final(self).holes == old(self).holes,
            final(self).throw_to == old(self).throw_to,
            final(self).throw_value == old(self).throw_value,
            final(self).mp_filter == old(self).mp_filter,
            final(self).connections == old(self).connections,
            final(self).starting_sequence == old(self).starting_sequence,
            final(self).ending_sequence == old(self).ending_sequence,
            r matches Some((t, i)) ==> t < old(self).config.hands && i < limit,
            match r {
                None => {
                    &&& final(self).state == old(self).state
                    &&& forall|i: int, t: int|
                        0 <= i < limit && 0 <= t < old(self).config.hands ==> #[trigger] old(
                            self,
                        ).state.at(1, t, i) == 0
                },
                Some((t, i)) => {
                    &&& old(self).state.at(1, t as int, i as int) > 0
                    &&& old(self).empty_before(i as int, t as int)
                    &&& final(self).state.d0 == old(self).state.d0
                    &&& final(self).state.d1 == old(self).state.d1
                    &&& final(self).state.d2 == old(self).state.d2
                    &&& forall|x: int, y: int, z: int|
                        old(self).state.in_grid(x, y, z) ==> #[trigger] final(self).state.at(x, y, z)
                            == if x == 1 && y == t && z == i {
                            (old(self).state.at(x, y, z) - 1) as usize
                        } else {
                            old(self).state.at(x, y, z)
                        }
                },
            },
    {
        let hands = self.config.hands;
        let mut index: usize = 0;
        while index < limit
            invariant
                self.wf(),
                self.config == old(self).config,
                self.limits == old(self).limits,
                self.l_target == old(self).l_target,
                self.patterns == old(self).patterns,
                self.patterns_found == old(self).patterns_found,
                self.state == old(self).state,
                self.throws_left == old(self).throws_left,
                self.holes == old(self).holes,
                self.throw_to == old(self).throw_to,
                self.throw_value == old(self).throw_value,
                self.mp_filter == old(self).mp_filter,
                self.connections == old(self).connections,
                self.starting_sequence == old(self).starting_sequence,
                self.ending_sequence == old(self).ending_sequence,
                hands == self.config.hands,
                limit <= self.config.ground_state_length,
                index <= limit,
                forall|i: int, t: int|
                    0 <= i < index && 0 <= t < hands ==> #[trigger] self.state.at(1, t, i) == 0,
            decreases limit - index,
        {
            let mut target: usize = 0;
            while target < hands
                invariant
                    self.wf(),
                    self.config == old(self).config,
                    self.limits == old(self).limits,
                    self.l_target == old(self).l_target,
                    self.patterns == old(self).patterns,
                    self.patterns_found == old(self).patterns_found,
                    self.state == old(self).state,
                    self.throws_left == old(self).throws_left,
                    self.holes == old(self).holes,
                    self.throw_to == old(self).throw_to,
                    self.throw_value == old(self).throw_value,
                    self.mp_filter == old(self).mp_filter,
                    self.connections == old(self).connections,
                    self.starting_sequence == old(self).starting_sequence,
                    self.ending_sequence == old(self).ending_sequence,
                    hands == self.config.hands,
                    limit <= self.config.ground_state_length,
                    index < limit,
                    target <= hands,
                    forall|i: int, t: int|
                        0 <= i < index && 0 <= t < hands ==> #[trigger] self.state.at(1, t, i) == 0,
                    forall|t: int| 0 <= t < target ==> #[trigger] self.state.at(1, t, index as int) == 0,
                decreases hands - target,
            {
                let held = self.state.get(1, target, index);
                if held > 0 {
                    assert(self.empty_before(index as int, target as int));
                    self.state.set(1, target, index, held - 1);
                    return Some((target, index));
                }
                target = target + 1;
            }
            index = index + 1;
        }
        None
    }

    /// No object is held at beat 1 at a position below `i`, nor at position `i` in a hand
    /// before `t`.
    spec fn empty_before(&self, i: int, t: int) -> bool {
        forall|i2: int, t2: int|
            0 <= i2 && 0 <= t2 < self.config.hands && (i2 < i || (i2 == i && t2 < t))
                ==> #[trigger] self.state.at(1, t2, i2) == 0
    }

    /// Finds the throws that lead from the ground state into the pattern's state and back
    /// out, and writes them as the starting and ending sequences.
    fn find_start_end(&mut self) -> (r: Result<(), Halt>)
        requires
            old(self).wf(),
        ensures
            final(self).wf(),
            final(self).config == old(self).config,
            final(self).limits == old(self).limits,
            final(self).l_target == old(self).l_target,
            final(self).patterns == old(self).patterns,
            final(self).patterns_found == old(self).patterns_found,
            r is Ok || r is Err && r->Err_0 is Internal,
    {
        let rp = self.config.rhythm_period;
        let gsl = self.config.ground_state_length;
        let ht = self.config.ht;
        let hands = self.config.hands;
        let slot_size = self.config.slot_size;
        let mut start_beats: usize = 0;
        while !self.fill_start_difference(start_beats)
            invariant
                self.wf(),
                self.config == old(self).config,
                self.limits == old(self).limits,
                self.l_target == old(self).l_target,
                self.patterns == old(self).patterns,
                self.patterns_found == old(self).patterns_found,
                rp == self.config.rhythm_period,
                gsl == self.config.ground_state_length,
                start_beats < gsl + rp,
            decreases gsl + rp - start_beats,
        {
            start_beats = start_beats + rp;
        }
        if start_beats > slot_size || (start_beats > 0 && self.config.max_occupancy == 0) {
            return Err(Halt::Internal);
        }
        let mut beat: usize = 0;
        while beat < start_beats
            invariant
                self.wf(),
                self.config == old(self).config,
                self.limits == old(self).limits,
                self.l_target == old(self).l_target,
                self.patterns == old(self).patterns,
                self.patterns_found == old(self).patterns_found,
                gsl == self.config.ground_state_length,
                ht == self.config.ht,
                hands == self.config.hands,
                start_beats <= self.config.slot_size,
                start_beats > 0 ==> self.config.max_occupancy >= 1,
                start_beats <= gsl + 2,
                beat <= start_beats,
            decreases start_beats - beat,
        {
            self.clear_beat(beat);
            let mut hand: usize = 0;
            while hand < hands
                invariant
                    self.wf(),
                    self.config == old(self).config,
                    self.limits == old(self).limits,
                    self.l_target == old(self).l_target,
                    self.patterns == old(self).patterns,
                    self.patterns_found == old(self).patterns_found,
                    gsl == self.config.ground_state_length,
                    ht == self.config.ht,
                    hands == self.config.hands,
                    start_beats <= self.config.slot_size,
                    self.config.max_occupancy >= 1,
                    start_beats <= gsl + 2,
                    beat < start_beats,
                    hand <= hands,
                decreases hands - hand,
            {
                if beat < gsl && self.config.ground_state[hand][beat] != 0 {
                    match self.take_destination(ht) {
                        Some((target, index)) => {
                            self.throw_value.set(beat, hand, 0, index + start_beats - beat);
                            self.throw_to.set(beat, hand, 0, target);
                        },
                        None => {},
                    }
                }
                hand = hand + 1;
            }
            beat = beat + 1;
        }
        let mut starting: Vec<char> = Vec::new();
        let mut beat: usize = 0;
        while beat < start_beats
            invariant
                self.wf(),
                start_beats <= self.config.slot_size,
            decreases start_beats - beat,
        {
            self.output_beat(beat, &mut starting);
            beat = beat + 1;
        }
        self.starting_sequence = starting;
        let mut end_beats: usize = 0;
        while !self.fill_end_difference(end_beats)
            invariant
                self.wf(),
                self.config == old(self).config,
                self.limits == old(self).limits,
                self.l_target == old(self).l_target,
                self.patterns == old(self).patterns,
                self.patterns_found == old(self).patterns_found,
                rp == self.config.rhythm_period,
                ht == self.config.ht,
                end_beats < ht + rp,
            decreases ht + rp - end_beats,
        {
            end_beats = end_beats + rp;
        }
        if end_beats > slot_size {
            return Err(Halt::Internal);
        }
        let mut beat: usize = 0;
        while beat < end_beats
            invariant
                self.wf(),
                self.config == old(self).config,
                self.limits == old(self).limits,
                self.l_target == old(self).l_target,
                self.patterns == old(self).patterns,
                self.patterns_found == old(self).patterns_found,
                gsl == self.config.ground_state_length,
                ht == self.config.ht,
                hands == self.config.hands,
                end_beats <= self.config.slot_size,
                end_beats <= ht + 2,
                beat <= end_beats,
            decreases end_beats - beat,
        {
            self.clear_beat(beat);
            if beat < ht {
                let mut hand: usize = 0;
                while hand < hands
                    invariant
                        self.wf(),
                        self.config == old(self).config,
                        self.limits == old(self).limits,
                        self.l_target == old(self).l_target,
                        self.patterns == old(self).patterns,
                        self.patterns_found == old(self).patterns_found,
                        gsl == self.config.ground_state_length,
                        ht == self.config.ht,
                        hands == self.config.hands,
                        end_beats <= self.config.slot_size,
                        end_beats <= ht + 2,
                        beat < end_beats,
                        beat < ht,
                        hand <= hands,
                    decreases hands - hand,
                {
                    let held = self.state.get(0, hand, beat);
                    let mut slot: usize = 0;
                    while slot < held
                        invariant
                            self.wf(),
                            self.config == old(self).config,
                            self.limits == old(self).limits,
                            self.l_target == old(self).l_target,
                            self.patterns == old(self).patterns,
                            self.patterns_found == old(self).patterns_found,
                            gsl == self.config.ground_state_length,
                            ht == self.config.ht,
                            hands == self.config.hands,
                            end_beats <= self.config.slot_size,
                            end_beats <= ht + 2,
                            beat < end_beats,
                            beat < ht,
                            hand < hands,
                        decreases held - slot,
                    {
                        match self.take_destination(gsl) {
                            Some((target, index)) => {
                                if slot >= self.config.max_occupancy {
                                    return Err(Halt::Internal);
                                }
                                self.throw_value.set(beat, hand, slot, index + end_beats - beat);
                                self.throw_to.set(beat, hand, slot, target);
                            },
                            None => {},
                        }
                        slot = slot + 1;
                    }
                    hand = hand + 1;
                }
            }
            beat = beat + 1;
        }
        let mut ending: Vec<char> = Vec::new();
        let mut beat: usize = 0;
        while beat < end_beats
            invariant
                self.wf(),
                end_beats <= self.config.slot_size,
            decreases end_beats - beat,
        {
            self.output_beat(beat, &mut ending);
            beat = beat + 1;
        }
        self.ending_sequence = ending;
        Ok(())
    }
}

} // verus!

verus! {

impl SiteswapGenerator {
    /// Given the state at beat 0, sets up the filters, the sequences and the free landing
    /// places, and searches the patterns that start in it. When only excited-state patterns
    /// are asked for (`-ng`), the ground state gives none: nothing is found or recorded.
    fn process_completed_state(&mut self, depth: usize) -> (r: Result<usize, Halt>)
        requires
            old(self).wf(),
            old(self).searching(),
            old(self).below_limit(),
        ensures
            final(self).wf(),
            final(self).same_setup(&old(self)),
            final(self).outcome(r),
            r matches Ok(k) ==> final(self).patterns_found == old(self).patterns_found + k,
            old(self).config.groundflag == 2 && (forall|h: int, i: int|
                0 <= h < old(self).config.hands && 0 <= i < old(self).config.ground_state_length
                    ==> #[trigger] old(self).state.at(0, h, i) == ground_cell(old(self).config.spec_of(), h, i))
                ==> r == Ok::<usize, Halt>(0) && final(self).patterns == old(self).patterns
                && final(self).patterns_found == old(self).patterns_found,
    {
        let hands = self.config.hands;
        let ht = self.config.ht;
        let lt = self.l_target;
        let slot_size = self.config.slot_size;
        let mpflag = self.config.mpflag;
        if self.config.groundflag == 2 && self.is_ground_state(0) {
            return Ok(0);
        }
        let mut hand: usize = 0;
        while hand < hands
            invariant
                self.wf(),
                self.searching(),
                self.below_limit(),
                self.same_setup(&old(self)),
                self.patterns == old(self).patterns,
                self.patterns_found == old(self).patterns_found,
                hands == self.config.hands,
                ht == self.config.ht,
                lt == self.l_target,
                slot_size == self.config.slot_size,
                mpflag == self.config.mpflag,
                hand <= hands,
            decreases hands - hand,
        {
            let mut index: usize = 0;
            while index < ht
                invariant
                    self.wf(),
                    self.searching(),
                    self.below_limit(),
                    self.same_setup(&old(self)),
                    self.patterns == old(self).patterns,
                    self.patterns_found == old(self).patterns_found,
                    hands == self.config.hands,
                    ht == self.config.ht,
                    lt == self.l_target,
                    slot_size == self.config.slot_size,
                    mpflag == self.config.mpflag,
                    hand < hands,
                    index <= ht,
                decreases ht - index,
            {
                let occupancy = self.state.get(0, hand, index);
                if mpflag != 0 && occupancy == 0 {
                    let e = self.mp_filter.get(0, hand, index);
                    self.mp_filter.set(0, hand, index, MpEntry { kind: MP_EMPTY, ..e });
                } else {
                    if mpflag != 0 {
                        self.mp_filter.set(
                            0,
                            hand,
                            index,
                            MpEntry { kind: MP_LOWER_BOUND, from: hand as i32, value: (index + 1) as i32 },
                        );
                    }
                    let mut scan = index + lt;
                    while scan < ht
                        invariant
                            self.wf(),
                            self.searching(),
                            self.below_limit(),
                            self.same_setup(&old(self)),
                            self.patterns == old(self).patterns,
                            self.patterns_found == old(self).patterns_found,
                            hands == self.config.hands,
                            ht == self.config.ht,
                            lt == self.l_target,
                            slot_size == self.config.slot_size,
                            mpflag == self.config.mpflag,
                            hand < hands,
                            index < ht,
                            lt >= 1,
                            scan <= ht + lt,
                        decreases ht + lt - scan,
                    {
                        let later = self.state.get(0, hand, scan);
                        if later > occupancy {
                            return Ok(0);
                        }
                        if mpflag != 0 && later != 0 {
                            if later < occupancy && index > self.holdthrow(hand) {
                                return Ok(0);
                            }
                            let e = self.mp_filter.get(0, hand, index);
                            self.mp_filter.set(0, hand, index, MpEntry { value: (scan + 1) as i32, ..e });
                        }
                        scan = scan + lt;
                    }
                }
                index = index + 1;
            }
            if mpflag != 0 {
                while index < slot_size
                    invariant
                        self.wf(),
                        self.searching(),
                        self.below_limit(),
                        self.same_setup(&old(self)),
                        self.patterns == old(self).patterns,
                        self.patterns_found == old(self).patterns_found,
                        hands == self.config.hands,
                        slot_size == self.config.slot_size,
                        mpflag == self.config.mpflag,
                        mpflag != 0,
                        hand < hands,
                    decreases slot_size - index,
                {
                    let e = self.mp_filter.get(0, hand, index);
                    self.mp_filter.set(0, hand, index, MpEntry { kind: MP_EMPTY, ..e });
                    index = index + 1;
                }
            }
            hand = hand + 1;
        }
        if self.config.numflag != 2 && self.config.sequence_flag {
            let found = self.find_start_end();
            if found.is_err() {
                return Err(Halt::Internal);
            }
        }
        let mut hand: usize = 0;
        while hand < hands
            invariant
                self.wf(),
                self.searching(),
                self.below_limit(),
                self.same_setup(&old(self)),
                self.patterns == old(self).patterns,
                self.patterns_found == old(self).patterns_found,
                hands == self.config.hands,
                ht == self.config.ht,
                lt == self.l_target,
                hand <= hands,
            decreases hands - hand,
        {
            let mut target_index: usize = 0;
            while target_index < lt + ht
                invariant
                    self.wf(),
                    self.searching(),
                    self.below_limit(),
                    self.same_setup(&old(self)),
                    self.patterns == old(self).patterns,
                    self.patterns_found == old(self).patterns_found,
                    hands == self.config.hands,
                    ht == self.config.ht,
                    lt == self.l_target,
                    hand < hands,
                decreases lt + ht - target_index,
            {
                let mut holes = if target_index < lt {
                    self.rhythm(0, hand, target_index)
                } else {
                    self.state.get(0, hand, target_index - lt)
                };
                if target_index < ht {
                    holes = holes.saturating_sub(self.state.get(0, hand, target_index));
                }
                self.holes.set(hand, target_index, 0, holes);
                target_index = target_index + 1;
            }
            hand = hand + 1;
        }
        self.start_beat(0);
        let mut buffer: Vec<char> = Vec::new();
        self.find_cycles(0, 1, 0, &mut buffer, depth)
    }

    /// The search over the throws of beat `beat` that are still to choose, each at least
    /// `min_throw` high (and, at that height, to hand `min_hand` or later); counts the
    /// patterns found.
    fn find_cycles(
        &mut self,
        beat: usize,
        min_throw: usize,
        min_hand: usize,
        buffer: &mut Vec<char>,
        depth: usize,
    ) -> (r: Result<usize, Halt>)
        requires
            old(self).wf(),
            old(self).searching(),
            old(self).below_limit(),
            beat < old(self).l_target,
        ensures
            final(self).wf(),
            final(self).same_setup(&old(self)),
            final(self).outcome(r),
            r matches Ok(k) ==> final(self).patterns_found == old(self).patterns_found + k,
        decreases depth,
    {
        let hands = self.config.hands;
        let ht = self.config.ht;
        let lt = self.l_target;
        let maxocc = self.config.max_occupancy;
        let start_len = buffer.len();
        let mut hand: usize = 0;
        while hand < hands && self.throws_left.get(beat, hand, 0) == 0
            invariant
                self.wf(),
                self.searching(),
                hands == self.config.hands,
                beat < self.l_target,
                hand <= hands,
            decreases hands - hand,
        {
            hand = hand + 1;
        }
        if hand == hands {
            self.output_beat(beat, buffer);
            let ghost pattern = buffer@;
            let throws_ok = match self.are_throws_valid(beat, buffer) {
                Ok(v) => v,
                Err(e) => {
                    return Err(Halt::Internal);
                },
            };
            let mut ok = throws_ok;
            if ok && self.config.mpflag != 0 {
                match self.is_multiplexing_valid(beat) {
                    Ok(v) => {
                        ok = v;
                    },
                    Err(_) => {
                        return Err(Halt::Internal);
                    },
                }
            }
            if !ok {
                buffer.truncate(start_len);
                return Ok(0);
            }
            match self.calculate_state(beat + 1) {
                Ok(()) => {},
                Err(_) => {
                    return Err(Halt::Internal);
                },
            }
            if !self.is_state_valid(beat + 1) {
                buffer.truncate(start_len);
                return Ok(0);
            }
            if beat + 1 < lt {
                self.start_beat(beat + 1);
                if depth == 0 {
                    return Err(Halt::Internal);
                }
                let r = self.find_cycles(beat + 1, 1, 0, buffer, depth - 1);
                if r.is_ok() {
                    buffer.truncate(start_len);
                }
                return r;
            }
            let mut valid = self.states_equal(0, lt);
            if valid {
                match self.is_pattern_valid(buffer) {
                    Ok(v) => {
                        valid = v;
                    },
                    Err(e) => {
                        return Err(e);
                    },
                }
            }
            if valid {
                let ghost g = self.config.spec_of();
                if self.config.numflag != 2 {
                    let ghost before = self.patterns@;
                    self.output_pattern(buffer);
                    proof {
                        let p = self.patterns@[before.len() as int];
                        assert(trim_controls(pattern) == p.config@);
                        assert(forall|i: int| 0 <= i < g.require.len() ==> regex_matches(#[trigger] g.require[i], pattern));
                        assert(forall|i: int| 0 <= i < g.st.exclude.len() ==> !regex_matches(#[trigger] g.st.exclude[i], pattern));
                        assert(pattern_ok(p, g));
                        assert forall|i: int| 0 <= i < self.patterns.len() implies pattern_ok(#[trigger] self.patterns@[i], g) by {
                            if i < before.len() {
                                assert(self.patterns@[i] == before[i]);
                            }
                        }
                    }
                }
                if self.patterns_found == usize::MAX {
                    return Err(Halt::Internal);
                }
                self.patterns_found = self.patterns_found + 1;
                match self.limits.max_patterns {
                    Some(limit) => {
                        if limit == self.patterns_found {
                            return Err(Halt::Stop(GenerationStopReason::PatternLimit(self.patterns_found)));
                        }
                    },
                    None => {},
                }
            }
            buffer.truncate(start_len);
            return Ok(if valid { 1 } else { 0 });
        }
        let left = self.throws_left.get(beat, hand, 0);
        let slot = left - 1;
        self.throws_left.set(beat, hand, 0, slot);
        if slot >= maxocc {
            return Err(Halt::Internal);
        }
        let mut num: usize = 0;
        let mut value = min_throw;
        let mut target = min_hand;
        while value <= ht
            invariant
                self.wf(),
                self.searching(),
                self.below_limit(),
                self.same_setup(&old(self)),
                hands == self.config.hands,
                ht == self.config.ht,
                lt == self.l_target,
                maxocc == self.config.max_occupancy,
                beat < lt,
                hand < hands,
                slot < maxocc,
                self.patterns_found == old(self).patterns_found + num,
            decreases ht + 1 - value,
        {
            let target_index = beat + value;
            while target < hands
                invariant
                    self.wf(),
                    self.searching(),
                    self.below_limit(),
                    self.same_setup(&old(self)),
                    hands == self.config.hands,
                    ht == self.config.ht,
                    lt == self.l_target,
                    maxocc == self.config.max_occupancy,
                    beat < lt,
                    hand < hands,
                    slot < maxocc,
                    value <= ht,
                    target_index == beat + value,
                    self.patterns_found == old(self).patterns_found + num,
                decreases hands - target,
            {
                let free = self.holes.get(target, target_index, 0);
                if free > 0 {
                    self.holes.set(target, target_index, 0, free - 1);
                    self.throw_to.set(beat, hand, slot, target);
                    self.throw_value.set(beat, hand, slot, value);
                    let next_min_throw = if slot != 0 { value } else { 1 };
                    let next_min_hand = if slot != 0 { target } else { 0 };
                    if depth == 0 {
                        return Err(Halt::Internal);
                    }
                    let r = self.find_cycles(beat, next_min_throw, next_min_hand, buffer, depth - 1);
                    match r {
                        Ok(found) => {
                            num = num.saturating_add(found);
                        },
                        Err(e) => {
                            return Err(e);
                        },
                    }
                    let now = self.holes.get(target, target_index, 0);
                    if now == usize::MAX {
                        return Err(Halt::Internal);
                    }
                    self.holes.set(target, target_index, 0, now + 1);
                }
                target = target + 1;
            }
            value = value + 1;
            target = 0;
        }
        let now = self.throws_left.get(beat, hand, 0);
        if now == usize::MAX {
            return Err(Halt::Internal);
        }
        self.throws_left.set(beat, hand, 0, now + 1);
        buffer.truncate(start_len);
        Ok(num)
    }
}

} // verus!

verus! {

impl SiteswapGenerator {
    /// Places ball `ball` and those after it in the state at beat 0, at position `start`
    /// or later (a position is a beat and a hand), and searches each state so completed.
    fn place_ball(&mut self, ball: usize, start: usize, depth: usize) -> (r: Result<usize, Halt>)
        requires
            old(self).wf(),
            old(self).searching(),
            old(self).below_limit(),
            ball < old(self).config.n,
        ensures
            final(self).wf(),
            final(self).same_setup(&old(self)),
            final(self).outcome(r),
            r matches Ok(k) ==> final(self).patterns_found == old(self).patterns_found + k,
        decreases old(self).config.n - ball,
    {
        let hands = self.config.hands;
        let ht = self.config.ht;
        let lt = self.l_target;
        let n = self.config.n;
        proof {
            let g = self.config.spec_of();
            assert(ht * hands <= 33554432) by (nonlinear_arith)
                requires
                    g.hands * (g.l_max + g.ht) <= 33554432,
                    ht == g.ht,
                    hands == g.hands,
                    g.l_max >= 0,
                    ht >= 0,
                    hands >= 0,
            ;
        }
        let max_position = ht * hands;
        let mut total: usize = 0;
        let mut pos = start;
        while pos < max_position
            invariant
                self.wf(),
                self.searching(),
                self.below_limit(),
                self.same_setup(&old(self)),
                hands == self.config.hands,
                ht == self.config.ht,
                lt == self.l_target,
                n == self.config.n,
                ball < n,
                max_position == ht * hands,
                self.patterns_found == old(self).patterns_found + total,
            decreases max_position - pos,
        {
            match self.tick() {
                Ok(()) => {},
                Err(e) => {
                    return Err(e);
                },
            }
            proof {
                assert(pos / hands < ht) by (nonlinear_arith)
                    requires
                        pos < ht * hands,
                        hands >= 1,
                ;
            }
            let index = pos / hands;
            let hand = pos % hands;
            let cur = self.state.get(0, hand, index);
            if cur < self.rhythm(0, hand, index) {
                self.state.set(0, hand, index, cur + 1);
                let valid = index < lt || cur + 1 <= self.state.get(0, hand, index - lt);
                if valid {
                    let r = if ball + 1 == n {
                        self.process_completed_state(depth)
                    } else {
                        self.place_ball(ball + 1, pos, depth)
                    };
                    match r {
                        Ok(found) => {
                            total = total.saturating_add(found);
                        },
                        Err(e) => {
                            return Err(e);
                        },
                    }
                }
                self.state.set(0, hand, index, cur);
            }
            pos = pos + 1;
        }
        Ok(total)
    }

    /// Searches the patterns of the target period.
    fn find_patterns(&mut self, depth: usize) -> (r: Result<usize, Halt>)
        requires
            old(self).wf(),
            old(self).searching(),
            old(self).below_limit(),
        ensures
            final(self).wf(),
            final(self).same_setup(&old(self)),
            final(self).outcome(r),
            r matches Ok(k) ==> final(self).patterns_found == old(self).patterns_found + k,
    {
        match self.check_stopping() {
            Ok(()) => {},
            Err(e) => {
                return Err(e);
            },
        }
        let hands = self.config.hands;
        let ht = self.config.ht;
        let ground = self.config.groundflag == 1;
        let mut hand: usize = 0;
        while hand < hands
            invariant
                self.wf(),
                self.searching(),
                self.below_limit(),
                self.same_setup(&old(self)),
                hands == self.config.hands,
                ht == self.config.ht,
                hand <= hands,
                self.patterns_found == old(self).patterns_found,
            decreases hands - hand,
        {
            let mut index: usize = 0;
            while index < ht
                invariant
                    self.wf(),
                    self.searching(),
                    self.below_limit(),
                    self.same_setup(&old(self)),
                    hands == self.config.hands,
                    ht == self.config.ht,
                    hand < hands,
                    index <= ht,
                    self.patterns_found == old(self).patterns_found,
                decreases ht - index,
            {
                let v = if ground {
                    self.config.ground_state[hand][index]
                } else {
                    0
                };
                self.state.set(0, hand, index, v);
                index = index + 1;
            }
            hand = hand + 1;
        }
        if ground {
            return self.process_completed_state(depth);
        }
        self.place_ball(0, 0, depth)
    }

    /// Searches every target period from the shortest to the longest.
    fn run_inner(&mut self, depth: usize) -> (r: Result<(), Halt>)
        requires
            old(self).wf(),
            old(self).below_limit(),
        ensures
            final(self).wf(),
            final(self).config == old(self).config,
            final(self).limits == old(self).limits,
            final(self).outcome(r),
            r is Ok ==> final(self).l_target > final(self).config.l_max,
            r is Ok ==> final(self).patterns_found >= old(self).patterns_found,
    {
        let rp = self.config.rhythm_period;
        self.l_target = self.config.l_min;
        while self.l_target <= self.config.l_max
            invariant
                self.wf(),
                self.below_limit(),
                self.config == old(self).config,
                self.limits == old(self).limits,
                rp == self.config.rhythm_period,
                self.config.l_min <= self.l_target,
                self.patterns_found >= old(self).patterns_found,
            decreases self.config.l_max + rp - self.l_target,
        {
            match self.find_patterns(depth) {
                Ok(_) => {},
                Err(e) => {
                    return Err(e);
                },
            }
            self.l_target = self.l_target + rp;
        }
        Ok(())
    }
}

/// The error for a table entry out of its range, which the search never produces.
pub open spec fn internal_error() -> Seq<char> {
    "Generator table entry out of range"@
}

/// What the generator found, as the pattern filters and limits allow it.
pub open spec fn result_ok(res: GenerationResult, g: GenSpec, limits: GeneratorLimits) -> bool {
    &&& forall|i: int| 0 <= i < res.patterns.len() ==> pattern_ok(#[trigger] res.patterns@[i], g)
    &&& g.st.numflag == 2 ==> res.patterns.len() == 0
    &&& (limits.max_patterns matches Some(k) ==> (k >= 1 ==> res.patterns.len() <= k))
    &&& match res.stop_reason {
        Some(GenerationStopReason::PatternLimit(x)) => limits.max_patterns == Some(x) && (g.st.numflag
            != 2 ==> res.patterns.len() == x),
        Some(GenerationStopReason::TimeLimit(x)) => (limits.max_time matches Some(d) && x == whole_seconds(d)),
        Some(GenerationStopReason::Cancelled) => limits.cancelled is Some,
        None => g.st.numflag != 2 ==> (limits.max_patterns matches Some(k) ==> (k >= 1
            ==> res.patterns.len() < k)),
    }
}

impl SiteswapGenerator {
    fn new(arguments: &str, limits: GeneratorLimits) -> (r: Result<Self, String>)
        ensures
            match r {
                Ok(s) => {
                    &&& s.wf()
                    &&& s.below_limit()
                    &&& s.patterns.len() == 0
                    &&& s.limits == limits
                    &&& generator_setup(arguments@) == Ok::<GenSpec, Seq<char>>(s.config.spec_of())
                },
                Err(m) => generator_setup(arguments@) == Err::<GenSpec, Seq<char>>(m@),
            },
    {
        let config = match SiteswapGeneratorConfig::parse(arguments) {
            Ok(c) => c,
            Err(m) => {
                return Err(m);
            },
        };
        let ghost g = config.spec_of();
        let hands = config.hands;
        let l_max = config.l_max;
        let ht = config.ht;
        let gsl = config.ground_state_length;
        let slot_size = config.slot_size;
        let maxocc = config.max_occupancy;
        let occ = saturating_mul_usize(hands, maxocc);
        let occ1 = match occ.checked_add(1) {
            Some(v) => v,
            None => {
                return Err("Memory needed is too large".to_owned());
            },
        };
        if l_max.checked_mul(occ1).is_none() {
            return Err("Memory needed is too large".to_owned());
        }
        let l_plus_ht = match l_max.checked_add(ht) {
            Some(v) => v,
            None => {
                return Err("Memory needed is too large".to_owned());
            },
        };
        let l_plus_one = match l_max.checked_add(1) {
            Some(v) => v,
            None => {
                return Err("Memory needed is too large".to_owned());
            },
        };
        let word: u64 = (usize::BITS / 8) as u64;
        let state_size = saturating_mul_u64(
            saturating_mul_u64(saturating_mul_u64(l_plus_one as u64, hands as u64), gsl as u64),
            word,
        );
        let holes_size = saturating_mul_u64(saturating_mul_u64(hands as u64, l_plus_ht as u64), word);
        let throws_size = saturating_mul_u64(
            saturating_mul_u64(
                saturating_mul_u64(saturating_mul_u64(2, slot_size as u64), hands as u64),
                maxocc as u64,
            ),
            word,
        );
        let filter_size = if config.mpflag != 0 {
            saturating_mul_u64(
                saturating_mul_u64(
                    saturating_mul_u64(saturating_mul_u64(l_plus_one as u64, hands as u64), slot_size as u64),
                    3,
                ),
                4,
            )
        } else {
            0
        };
        let total = match state_size.checked_add(holes_size) {
            Some(v) => v,
            None => u64::MAX,
        };
        let total = match total.checked_add(throws_size) {
            Some(v) => v,
            None => u64::MAX,
        };
        let total = match total.checked_add(filter_size) {
            Some(v) => v,
            None => u64::MAX,
        };
        proof {
            assert(memory_needed(g) == Some(total as nat));
        }
        if total > MAX_GENERATOR_MEMORY_BYTES {
            return Err("Memory needed is too large".to_owned());
        }
        proof {
            lemma_memory_small(g, total as nat);
        }
        assert((l_max + 1) * hands * gsl <= usize::MAX);
        let state = Grid::new(l_max + 1, hands, gsl, 0usize);
        assert(l_max * hands * 1 <= usize::MAX) by (nonlinear_arith)
            requires
                (l_max + 1) * hands * gsl <= 33554432,
                gsl >= 1,
                hands >= 0,
        ;
        let throws_left = Grid::new(l_max, hands, 1, 0usize);
        assert(hands * l_plus_ht * 1 <= usize::MAX);
        let holes = Grid::new(hands, l_plus_ht, 1, 0usize);
        assert(slot_size * hands * maxocc <= usize::MAX);
        let throw_to = Grid::new(slot_size, hands, maxocc, 0usize);
        let throw_value = Grid::new(slot_size, hands, maxocc, 0usize);
        let empty = MpEntry { kind: MP_EMPTY, from: 0, value: 0 };
        let mp_filter = if config.mpflag != 0 {
            Grid::new(l_max + 1, hands, slot_size, empty)
        } else {
            Grid::new(0, 0, 0, empty)
        };
        let mut connections: Vec<bool> = Vec::new();
        if config.connected_patterns_flag {
            let mut k: usize = 0;
            while k < config.jugglers
                invariant
                    k <= config.jugglers,
                    connections.len() == k,
                decreases config.jugglers - k,
            {
                connections.push(false);
                k = k + 1;
            }
        }
        let s = Self {
            config,
            limits,
            state,
            l_target: 0,
            throws_left,
            holes,
            throw_to,
            throw_value,
            mp_filter,
            connections,
            starting_sequence: Vec::new(),
            ending_sequence: Vec::new(),
            patterns_found: 0,
            check_counter: 0,
            started_at: now(),
            patterns: Vec::new(),
        };
        Ok(s)
    }
}

/// Generates the siteswap patterns that the arguments describe: `balls max-throw period`
/// (`-` for an unbounded throw or period, `a-b` for a range of periods) followed by options
/// (`-s` synchronous, `-j n` jugglers, `-m n` multiplexing, `-x`/`-i` terms to exclude or
/// require, `-g`/`-ng` ground or excited states only, `-f` all patterns, `-prime` prime
/// patterns, and more).
pub fn generate_siteswaps(arguments: &str, limits: GeneratorLimits) -> (r: Result<
    GenerationResult,
    String,
>)
    ensures
        match generator_setup(arguments@) {
            Err(m) => r matches Err(e) && e@ == m,
            Ok(g) => match r {
                Ok(res) => result_ok(res, g, limits),
                Err(e) => e@ == internal_error(),
            },
        },
{
    let ghost lim = limits;
    let mut generator = match SiteswapGenerator::new(arguments, limits) {
        Ok(s) => s,
        Err(m) => {
            return Err(m);
        },
    };
    let ghost g = generator.config.spec_of();
    if generator.config.groundflag == 1 && generator.config.ground_state_length > generator.config.ht {
        return Ok(GenerationResult { patterns: Vec::new(), stop_reason: None });
    }
    generator.started_at = now();
    let l_max = generator.config.l_max;
    let occ = generator.config.hands * generator.config.max_occupancy;
    let frames = l_max * (occ + 1);
    let depth = if frames > 0 { frames - 1 } else { 0 };
    let outcome = generator.run_inner(depth);
    let stop_reason = match outcome {
        Ok(()) => None,
        Err(Halt::Stop(reason)) => Some(reason),
        Err(Halt::Internal) => {
            return Err("Generator table entry out of range".to_owned());
        },
    };
    let res = GenerationResult { patterns: generator.patterns, stop_reason };
    proof {
        assert forall|i: int| 0 <= i < res.patterns.len() implies pattern_ok(#[trigger] res.patterns@[i], g) by {
        }
    }
    Ok(res)
}

} // verus!
