use juggling_core::animation;
use juggling_core::jml::{split_tags, strip_doctype};
use juggling_core::ladder::{parse_event_hand, LadderHand};
use juggling_core::mhn_jml::{self, format_base_pattern_config, hand_name, parse_hand};
use juggling_core::mhn_matrix::{default_throw_mod, hand_to_index, mark_path, opposite_hand, wrap_juggler};
use juggling_core::mhn_throw::{LEFT_HAND, RIGHT_HAND};
use juggling_core::mutator::MutatorOptions;
use juggling_core::siteswap::{Hand, ThrowSpec};

#[test]
fn strips_doctype_lines() {
    let xml = "<?xml version=\"1.0\"?>\n  <!DOCTYPE jml SYSTEM \"file://jml.dtd\">\r\n<jml version=\"3\">\r\n</jml>\n";
    assert_eq!(
        strip_doctype(xml),
        "<?xml version=\"1.0\"?>\n<jml version=\"3\">\n</jml>"
    );
    assert_eq!(strip_doctype(""), "");
    assert_eq!(strip_doctype("a\n\nb"), "a\n\nb");
}

#[test]
fn splits_tags_without_empty_ones() {
    assert_eq!(split_tags(" a, ,b ,"), vec!["a".to_string(), "b".to_string()]);
    assert!(split_tags("").is_empty());
}

#[test]
fn reads_hand_references() {
    assert_eq!(parse_hand("2:Left"), Ok((2, 1)));
    assert_eq!(parse_hand("x"), Ok((1, 0)));
    assert_eq!(parse_hand("0:right"), Ok((1, 0)));
    assert_eq!(parse_hand(" 3:left"), Ok((1, 1)));
    assert_eq!(hand_name(1), "left");
    assert_eq!(hand_name(0), "right");
}

#[test]
fn breaks_base_pattern_config_after_semicolons() {
    assert_eq!(
        format_base_pattern_config("pattern=3;  bps=4; x"),
        "pattern=3;\nbps=4;\nx"
    );
    assert_eq!(format_base_pattern_config("a;"), "a;\n");
}

#[test]
fn reads_prop_assignments() {
    assert_eq!(mhn_jml::parse_prop_assignment(Some("1, 2,x,3"), 2), vec![1, 2]);
    assert_eq!(mhn_jml::parse_prop_assignment(Some("1,2"), 0), vec![1, 2]);
    assert!(mhn_jml::parse_prop_assignment(None, 3).is_empty());
    assert_eq!(animation::parse_prop_assignment("1,2", 5), vec![1, 2, 1, 2, 1]);
    assert_eq!(animation::parse_prop_assignment("", 3), vec![1, 1, 1]);
    assert_eq!(animation::parse_prop_assignment("4,5,6", 2), vec![4, 5]);
}

#[test]
fn reads_ladder_event_hands() {
    assert_eq!(parse_event_hand(" 2 : LEFT "), (2, LadderHand::Left));
    assert_eq!(parse_event_hand("0"), (1, LadderHand::Right));
    assert_eq!(parse_event_hand("abc:right"), (1, LadderHand::Right));
}

fn throw(value: u32, source: usize, target: usize, modifier: Option<&str>) -> ThrowSpec {
    ThrowSpec {
        value,
        hand: Hand::Right,
        cross: false,
        source_juggler: source,
        target_juggler: target,
        modifier: modifier.map(|m| m.to_string()),
        hand_fixed: false,
        sync: false,
    }
}

#[test]
fn chooses_default_throw_modifiers() {
    let same = |t: &ThrowSpec| default_throw_mod(t, Hand::Left, Hand::Left);
    assert_eq!(same(&throw(1, 1, 1, None)).as_deref(), Some("H"));
    assert_eq!(same(&throw(2, 1, 1, None)).as_deref(), Some("?"));
    assert_eq!(same(&throw(3, 1, 1, None)).as_deref(), Some("T"));
    assert_eq!(same(&throw(2, 1, 2, None)).as_deref(), Some("T"));
    assert_eq!(
        default_throw_mod(&throw(2, 1, 1, None), Hand::Left, Hand::Right).as_deref(),
        Some("T")
    );
    assert_eq!(same(&throw(2, 1, 1, Some("B"))).as_deref(), Some("B"));
}

#[test]
fn wraps_jugglers_and_marks_paths() {
    assert_eq!(wrap_juggler(5, 2), 1);
    assert_eq!(wrap_juggler(4, 3), 1);
    assert_eq!(wrap_juggler(2, 3), 2);
    assert_eq!(wrap_juggler(0, 3), 1);
    assert_eq!(wrap_juggler(3, 0), 1);
    let mut touched = vec![false; 3];
    mark_path(&mut touched, 2);
    assert_eq!(touched, vec![false, true, false]);
    mark_path(&mut touched, 0);
    mark_path(&mut touched, 4);
    assert_eq!(touched, vec![false, true, false]);
    assert_eq!(hand_to_index(Hand::Right), RIGHT_HAND);
    assert_eq!(hand_to_index(Hand::Left), LEFT_HAND);
    assert_eq!(opposite_hand(Hand::Left), Hand::Right);
}

#[test]
fn mutator_defaults_enable_every_kind() {
    let options = MutatorOptions::default();
    assert_eq!(options.enabled, [true; 5]);
    assert_eq!(options.rate_index, 3);
}
