use juggling_core::animation::TransitionKind;
use juggling_core::animation_prefs::{kotlin_boolean, parse_i32_setting, push_bool, DefaultView, ShowGround};
use juggling_core::ladder::{hand_order, transition_label, LadderEventTransition, LadderHand};
use juggling_core::library::builtin_records;
use juggling_core::mutator::MutationKind;

#[test]
fn ground_settings_have_their_numbers() {
    for index in 0..3 {
        assert_eq!(ShowGround::from_index(index).unwrap().as_index(), index);
    }
    assert_eq!(ShowGround::from_index(3), None);
    assert_eq!(ShowGround::default(), ShowGround::Auto);
}

#[test]
fn views_have_their_names() {
    assert_eq!(DefaultView::NoView.parameter_name(), None);
    assert_eq!(DefaultView::Edit.parameter_name(), Some("visual_editor"));
    for view in [DefaultView::Simple, DefaultView::Edit, DefaultView::Pattern, DefaultView::Selection] {
        assert_eq!(DefaultView::parse(view.parameter_name().unwrap()), Some(view));
    }
    assert_eq!(DefaultView::parse("Pattern_Editor"), Some(DefaultView::Pattern));
    assert_eq!(DefaultView::parse("none"), None);
}

#[test]
fn settings_read_booleans_and_numbers() {
    assert!(kotlin_boolean("TRUE"));
    assert!(!kotlin_boolean("yes"));
    assert_eq!(parse_i32_setting(" -12 ", "width"), Ok(-12));
    assert_eq!(parse_i32_setting("1.5", "width").unwrap_err(), "Number format error in \"width\" value");
    let mut parameters = Vec::new();
    push_bool(&mut parameters, "stereo", true);
    push_bool(&mut parameters, "paused", false);
    assert_eq!(parameters, vec!["stereo=true".to_string()]);
}

#[test]
fn ladder_labels() {
    assert_eq!(LadderHand::Left.short_label(), "L");
    assert_eq!(LadderHand::Right.long_label(), "right");
    assert_eq!(hand_order(LadderHand::Left), 0);
    assert_eq!(hand_order(LadderHand::Right), 1);
    assert_eq!(transition_label(TransitionKind::SoftCatch), "soft catch");
    assert_eq!(transition_label(TransitionKind::Holding), "holding");
    let hold = LadderEventTransition { path: 1, transition: TransitionKind::Holding, throw_type: None, throw_mod: None };
    assert!(!hold.is_throw_or_catch());
    let throw = LadderEventTransition { path: 1, transition: TransitionKind::Throw, throw_type: None, throw_mod: None };
    assert!(throw.is_throw_or_catch());
}

#[test]
fn builtin_library_falls_back_to_the_cascade() {
    let records = builtin_records();
    assert_eq!(records.len(), 1);
    assert_eq!(records[0].display, "3 cascade");
    assert_eq!(records[0].config.as_deref(), Some("pattern=3"));
}

#[test]
fn mutation_kinds_are_numbered_in_order() {
    assert_eq!(MutationKind::EventPosition.index(), 0);
    assert_eq!(MutationKind::RemoveEvent.index(), 4);
}
