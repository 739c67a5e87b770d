use juggling_core::util::{expand_repeats, split_on_char_outside_parens};

#[test]
fn expands_nested_repeats() {
    assert_eq!(expand_repeats("he(l)^2o"), "hello");
    assert_eq!(expand_repeats("((ab)^2c)^2"), "ababcababc");
    assert_eq!(expand_repeats("(hello)^0world"), "world");
}

#[test]
fn splits_only_outside_parens() {
    assert_eq!(
        split_on_char_outside_parens("(1,2).(3.4).", '.'),
        vec!["(1,2)", "(3.4)"]
    );
}

#[test]
fn text_without_repeats_is_unchanged() {
    assert_eq!(expand_repeats("531"), "531");
    assert_eq!(expand_repeats("(3,3)"), "(3,3)");
    assert_eq!(expand_repeats("(4)^x"), "(4)^x");
    assert_eq!(expand_repeats("(4) ^ 3"), "444");
    assert_eq!(expand_repeats("(4"), "(4");
}

#[test]
fn splitting_keeps_empty_pieces_but_a_last_one() {
    assert_eq!(split_on_char_outside_parens("", '.'), vec![""]);
    assert_eq!(split_on_char_outside_parens("a..b", '.'), vec!["a", "", "b"]);
    assert_eq!(split_on_char_outside_parens(".", '.'), vec![""]);
    assert_eq!(split_on_char_outside_parens("a(b.c)d", '.'), vec!["a(b.c)d"]);
}

#[test]
fn without_parentheses_split_is_a_plain_split() {
    assert_eq!(split_on_char_outside_parens("a.b.", '.'), vec!["a", "b"]);
    assert_eq!(split_on_char_outside_parens("a..b", '.'), vec!["a", "", "b"]);
}
