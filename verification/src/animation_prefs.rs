use vstd::prelude::*;
use crate::text::{chars_of, eq_ignore_case, eq_ignore_ascii_case, trim, trim_chars, parsed_i32, parse_i32, string_from_chars, push_str};

verus! {

/// Whether the animation shows the ground.
#[derive(Clone, Copy, Debug, Default, PartialEq, Eq)]
pub enum ShowGround {
    #[default]
    Auto,
    On,
    Off,
}

/// The number of each setting, in the order the settings are listed.
pub open spec fn show_ground_index(s: ShowGround) -> usize {
    match s {
        ShowGround::Auto => 0,
        ShowGround::On => 1,
        ShowGround::Off => 2,
    }
}

impl ShowGround {
    pub fn as_index(self) -> (r: usize)
        ensures
            r == show_ground_index(self),
    {
        match self {
            ShowGround::Auto => 0,
            ShowGround::On => 1,
            ShowGround::Off => 2,
        }
    }

    /// The setting with the given number, if there is one.
    pub fn from_index(index: usize) -> (r: Option<Self>)
        ensures
            index <= 2 ==> (r matches Some(s) && show_ground_index(s) == index),
            index > 2 ==> r is None,
    {
        match index {
            0 => Some(ShowGround::Auto),
            1 => Some(ShowGround::On),
            2 => Some(ShowGround::Off),
            _ => None,
        }
    }
}

/// The view that the application opens with.
#[derive(Clone, Copy, Debug, Default, PartialEq, Eq)]
pub enum DefaultView {
    #[default]
    NoView,
    Simple,
    Edit,
    Pattern,
    Selection,
}

/// The name under which a view is written in the settings.
pub open spec fn view_name(v: DefaultView) -> Option<Seq<char>> {
    match v {
        DefaultView::NoView => None,
        DefaultView::Simple => Some("simple"@),
        DefaultView::Edit => Some("visual_editor"@),
        DefaultView::Pattern => Some("pattern_editor"@),
        DefaultView::Selection => Some("selection_editor"@),
    }
}

/// The view that a name (in any ASCII case) stands for.
pub open spec fn view_named(s: Seq<char>) -> Option<DefaultView> {
    if eq_ignore_case(s, "simple"@) {
        Some(DefaultView::Simple)
    } else if eq_ignore_case(s, "visual_editor"@) {
        Some(DefaultView::Edit)
    } else if eq_ignore_case(s, "pattern_editor"@) {
        Some(DefaultView::Pattern)
    } else if eq_ignore_case(s, "selection_editor"@) {
        Some(DefaultView::Selection)
    } else {
        None
    }
}

/// A view's name, read back (in any case), gives the view again.
pub proof fn lemma_view_name_round_trip(v: DefaultView)
    requires
        view_name(v) is Some,
    ensures
        view_named(view_name(v)->0) == Some(v),
{
    reveal_strlit("simple");
    reveal_strlit("visual_editor");
    reveal_strlit("pattern_editor");
    reveal_strlit("selection_editor");
}

impl DefaultView {
    pub fn parameter_name(self) -> (r: Option<&'static str>)
        ensures
            match r {
                Some(s) => view_name(self) == Some(s@),
                None => view_name(self) is None,
            },
    {
        match self {
            DefaultView::NoView => None,
            DefaultView::Simple => Some("simple"),
            DefaultView::Edit => Some("visual_editor"),
            DefaultView::Pattern => Some("pattern_editor"),
            DefaultView::Selection => Some("selection_editor"),
        }
    }

    pub fn parse(value: &str) -> (r: Option<Self>)
        ensures
            r == view_named(value@),
    {
        let v = chars_of(value);
        if eq_ignore_ascii_case(&v, &chars_of("simple")) {
            Some(DefaultView::Simple)
        } else if eq_ignore_ascii_case(&v, &chars_of("visual_editor")) {
            Some(DefaultView::Edit)
        } else if eq_ignore_ascii_case(&v, &chars_of("pattern_editor")) {
            Some(DefaultView::Pattern)
        } else if eq_ignore_ascii_case(&v, &chars_of("selection_editor")) {
            Some(DefaultView::Selection)
        } else {
            None
        }
    }
}

/// A setting's truth value: only `true` (in any ASCII case) is true.
pub fn kotlin_boolean(value: &str) -> (r: bool)
    ensures
        r == eq_ignore_case(value@, "true"@),
{
    eq_ignore_ascii_case(&chars_of(value), &chars_of("true"))
}

/// A whole number setting, with the error that names it.
pub fn parse_i32_setting(value: &str, name: &str) -> (r: Result<i32, String>)
    ensures
        match parsed_i32(trim(value@)) {
            Some(x) => r == Ok::<i32, String>(x),
            None => r matches Err(m) && m@ == "Number format error in \""@ + name@ + "\" value"@,
        },
{
    let v = chars_of(value);
    let t = trim_chars(&v);
    match parse_i32(&t) {
        Some(x) => Ok(x),
        None => {
            let mut msg = chars_of("Number format error in \"");
            push_str(&mut msg, name);
            push_str(&mut msg, "\" value");
            assert(msg@ =~= "Number format error in \""@ + name@ + "\" value"@);
            Err(string_from_chars(&msg))
        },
    }
}

/// Adds `name=true` to the settings when the value is true.
pub fn push_bool(parameters: &mut Vec<String>, name: &str, value: bool)
    ensures
        value ==> final(parameters)@.len() == old(parameters)@.len() + 1 && final(parameters)@.last()@
            == name@ + "=true"@ && final(parameters)@.drop_last() == old(parameters)@,
        !value ==> final(parameters)@ == old(parameters)@,
{
    if value {
        let mut text = chars_of(name);
        push_str(&mut text, "=true");
        parameters.push(string_from_chars(&text));
        assert(parameters@.drop_last() =~= old(parameters)@);
    }
}

} // verus!
