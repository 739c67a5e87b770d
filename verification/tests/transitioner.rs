use juggling_core::siteswap::parse_siteswap_pattern;
use juggling_core::transitioner::has_hands_specifier;
use juggling_core::transitioner::{
    digit_for_value, empty_state, find_max_length, find_min_length, max_filled_index,
    strip_final_hands_modifier, TransitionConfig,
};

#[test]
fn parses_original_multiplex_options() {
    let config = TransitionConfig::parse("[33] 42 -m 2 -mf -mc").unwrap();
    assert_eq!(config.target_occupancy, 2);
    assert!(config.allow_simultaneous_catches);
    assert!(!config.allow_clusters);
}

#[test]
fn strips_single_and_passing_hands_resets() {
    assert_eq!(strip_final_hands_modifier("12R".to_string()), "12");
    assert_eq!(
        strip_final_hands_modifier("<3|3><R|R>".to_string()),
        "<3|3>"
    );
}

#[test]
fn transition_arguments_report_their_errors() {
    let err = |args: &str| TransitionConfig::parse(args).unwrap_err();
    assert_eq!(err("3"), "Specify both a from pattern and a to pattern");
    assert_eq!(err("- 3"), "The from pattern is required");
    assert_eq!(err("3 -"), "The to pattern is required");
    assert_eq!(err("3 3 -m"), "A simultaneous throw count must follow -m");
    assert_eq!(err("3 3 -m x"), "Simultaneous throws must be a positive integer");
    assert_eq!(err("3 3 -m 0"), "Simultaneous throws must be at least 1");
    assert_eq!(err("3 3 -q"), "Unrecognized transitioner option: -q");
    let config = TransitionConfig::parse("531 441 -limits").unwrap();
    assert_eq!(config.pattern_from, "531");
    assert_eq!(config.pattern_to, "441");
    assert_eq!(config.target_occupancy, 1);
    assert!(!config.allow_simultaneous_catches);
    assert!(config.allow_clusters);
}

#[test]
fn keeps_transitions_without_a_final_reset() {
    assert_eq!(strip_final_hands_modifier("4\n4".to_string()), "44");
    assert_eq!(strip_final_hands_modifier("<3|3><R|L>".to_string()), "<3|3><R|L>");
    assert_eq!(strip_final_hands_modifier("<3|3><>".to_string()), "<3|3><>");
    assert_eq!(strip_final_hands_modifier(String::new()), "");
}

#[test]
fn writes_throw_digits_in_base_36() {
    assert_eq!(digit_for_value(0), '0');
    assert_eq!(digit_for_value(9), '9');
    assert_eq!(digit_for_value(10), 'a');
    assert_eq!(digit_for_value(35), 'z');
    assert_eq!(digit_for_value(99), 'z');
}

#[test]
fn measures_states() {
    let mut from = empty_state(1, 4);
    from[0][0][2] = 1;
    from[0][1][3] = 1;
    let mut to = empty_state(1, 4);
    to[0][0][0] = 1;
    assert_eq!(find_max_length(&from, 1, 4), 4);
    assert_eq!(max_filled_index(&from, 1, 4), 3);
    assert_eq!(max_filled_index(&empty_state(2, 3), 2, 3), 0);
    assert_eq!(find_max_length(&empty_state(2, 3), 2, 3), 0);
    assert_eq!(find_min_length(&from, &to, 1, 4), 4);
    assert_eq!(find_min_length(&to, &to, 1, 4), 0);
}

#[test]
fn detects_fixed_hands() {
    let plain = parse_siteswap_pattern("531").unwrap();
    assert!(!has_hands_specifier(&plain.beats));
    let lettered = parse_siteswap_pattern("R3").unwrap();
    assert!(has_hands_specifier(&lettered.beats));
    let sync = parse_siteswap_pattern("(4,4)").unwrap();
    assert!(has_hands_specifier(&sync.beats));
}
