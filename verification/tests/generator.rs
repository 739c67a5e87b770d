use juggling_core::generator::{
    duration_longer, generate_siteswaps, GenerationStopReason, GeneratorLimits,
};

fn patterns(arguments: &str) -> Vec<String> {
    generate_siteswaps(arguments, GeneratorLimits::unlimited())
        .unwrap()
        .patterns
        .into_iter()
        .map(|pattern| pattern.config)
        .collect()
}

#[test]
fn generates_original_three_ball_async_case() {
    let generated = patterns("3 5 6 -se -f");
    assert_eq!(generated.len(), 55);
    assert_eq!(generated[10], "444042");
}

#[test]
fn matches_siteswap_counting_rule() {
    let generated = patterns("4 12 3 -f -rot -se");
    assert_eq!(generated.len(), 5_usize.pow(3) - 4_usize.pow(3));

    let generated = patterns("5 25 5 -f -rot -se");
    assert_eq!(generated.len(), 6_usize.pow(5) - 5_usize.pow(5));
}

#[test]
fn generates_prime_height_limited_patterns() {
    let generated = patterns("5 7 - -prime -se");
    assert_eq!(generated.len(), 337);
    assert_eq!(generated.last().unwrap(), "777717077717707740");
}

#[test]
fn generates_prime_period_limited_patterns() {
    assert_eq!(patterns("4 24 6 -prime -se").len(), 1663);
}

#[test]
fn applies_regex_and_passing_filters() {
    assert_eq!(patterns("5 3 4 -j 2 -f -cp -x <3p|.*>").len(), 7);
    assert_eq!(patterns("5 7 4 -f").len(), 17);
    assert_eq!(patterns(r"5 7 4 -m 2 -f -x [").len(), 17);
}

#[test]
fn applies_original_multiplex_filters() {
    assert_eq!(patterns("5 5 3 -m 2 -f").len(), 23);
    assert_eq!(patterns("5 5 3 -m 2 -f -mt").len(), 16);
    assert_eq!(patterns("5 5 3 -m 2 -f -mt -mc").len(), 5);
}

#[test]
fn stops_at_pattern_limit_without_discarding_results() {
    let result = generate_siteswaps(
        "3 5 6 -se -f",
        GeneratorLimits {
            max_patterns: Some(10),
            max_time: None,
            cancelled: None,
        },
    )
    .unwrap();
    assert_eq!(result.patterns.len(), 10);
    assert_eq!(
        result.stop_reason,
        Some(GenerationStopReason::PatternLimit(10))
    );
}

#[test]
fn reports_argument_errors() {
    let err = |args: &str| generate_siteswaps(args, GeneratorLimits::unlimited()).unwrap_err();
    assert_eq!(err("3 5"), "Must specify number of balls, max throw, and period");
    assert_eq!(err("0 5 3"), "Must have at least 1 object");
    assert_eq!(err("x 5 3"), "Number format error in \"balls\" value");
    assert_eq!(err("3 5 3 -q"), "Unrecognized option \"-q\"");
    assert_eq!(err("3 5 -"), "Must specify max period if not in prime mode");
    assert_eq!(err("3 - - -prime"), "Either max throw or period must be specified");
    assert_eq!(err("3 5 3 -s"), "Pattern period must be a multiple of 2");
    assert_eq!(err("3 5 4-2"), "Syntax error in period");
    assert_eq!(err(r"3 5 3 -x \("), "Format error in excluded throws");
}

#[test]
fn generated_patterns_respect_the_filters() {
    let all = generate_siteswaps("3 5 3", GeneratorLimits::unlimited()).unwrap();
    for p in &all.patterns {
        assert_eq!(p.notation, "siteswap");
    }
    let with_five = patterns("3 5 3 -se -i 5");
    assert!(!with_five.is_empty());
    assert!(with_five.iter().all(|p| p.contains('5')));
    let without_five = patterns("3 5 3 -se -x 5");
    assert!(without_five.iter().all(|p| !p.contains('5')));
    assert!(patterns("3 5 3 -no").is_empty());
}

#[test]
fn limits_have_their_defaults() {
    let defaults = GeneratorLimits::application_defaults();
    assert_eq!(defaults.max_patterns, Some(1000));
    assert_eq!(defaults.max_time, Some(std::time::Duration::from_secs(15)));
    assert!(defaults.cancelled.is_none());
    let none = GeneratorLimits::unlimited();
    assert!(none.max_patterns.is_none() && none.max_time.is_none());
}

#[test]
fn ground_state_patterns_of_three_objects() {
    let generated = patterns("3 5 3 -g -se");
    assert!(generated.contains(&"531".to_string()));
    assert!(generated.contains(&"441".to_string()));
}

#[test]
fn durations_compare_by_seconds_then_nanoseconds() {
    assert!(duration_longer(16, 0, 15, 999_999_999));
    assert!(duration_longer(15, 2, 15, 1));
    assert!(!duration_longer(15, 1, 15, 1));
    assert!(!duration_longer(14, 999_999_999, 15, 0));
}
