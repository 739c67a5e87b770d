use juggling_core::library::builtin_records;
use juggling_core::siteswap::{
    parse_bool, parse_params, parse_siteswap_pattern, pattern_counts, target_hand, Hand,
    ParsedPattern,
};

fn read(pattern: &str) -> (ParsedPattern, usize, u32) {
    let parsed = parse_siteswap_pattern(pattern).unwrap_or_else(|e| panic!("{pattern}: {e}"));
    let (balls, max_throw) =
        pattern_counts(&parsed.beats).unwrap_or_else(|e| panic!("{pattern}: {e}"));
    (parsed, balls, max_throw)
}

#[test]
fn grammar_reads_basic_async_siteswap() {
    let (parsed, balls, max_throw) = read("531");
    assert_eq!(parsed.beats.len(), 3);
    assert_eq!(balls, 3);
    assert_eq!(max_throw, 5);
    assert!(!parsed.sync);
    assert!(parsed.vanilla_async);
    assert_eq!(parsed.jugglers, 1);
    assert_eq!(parsed.beats[0].throws[0].hand, Hand::Right);
    assert_eq!(parsed.beats[1].throws[0].hand, Hand::Left);
}

#[test]
fn grammar_reads_sync_siteswap() {
    let (parsed, balls, _) = read("(4x,2)(2,4x)");
    assert!(parsed.sync);
    assert!(!parsed.vanilla_async);
    assert_eq!(parsed.beats.len(), 4);
    assert_eq!(balls, 3);
    assert!(parsed.beats[1].throws.is_empty());
    assert_eq!(parsed.beats[0].throws[0].hand, Hand::Left);
    assert!(parsed.beats[0].throws[0].cross);
    assert!(parsed.beats[0].throws[0].sync);
}

#[test]
fn grammar_reads_synchronous_star_as_mirrored_half() {
    let (parsed, balls, _) = read("(2,6x)(2x,6)*");
    assert!(parsed.sync);
    assert_eq!(parsed.beats.len(), 8);
    assert_eq!(balls, 4);
    assert_eq!(target_hand(Hand::Right, 6, true), Hand::Left);
    assert_eq!(parsed.beats[4].throws[0].hand, Hand::Right);
    assert_eq!(parsed.beats[4].throws[0].value, 2);
}

#[test]
fn grammar_reads_two_juggler_passing_group() {
    let (parsed, balls, _) = read("<2|0>");
    assert!(!parsed.sync);
    assert_eq!(parsed.jugglers, 2);
    assert_eq!(parsed.beats.len(), 1);
    assert_eq!(balls, 2);
    let first = &parsed.beats[0].throws[0];
    assert_eq!(first.source_juggler, 1);
    assert_eq!(first.target_juggler, 1);
    assert_eq!(first.value, 2);
    let second = &parsed.beats[0].throws[1];
    assert_eq!(second.source_juggler, 2);
    assert_eq!(second.value, 0);
}

#[test]
fn grammar_reads_passing_targets_and_bounce_modifiers() {
    let (parsed, _, _) = read("<3p|3p2><3BHL|1>");
    assert_eq!(parsed.jugglers, 2);
    assert_eq!(parsed.beats.len(), 2);
    assert_eq!(parsed.beats[0].throws[0].target_juggler, 2);
    assert_eq!(parsed.beats[0].throws[1].target_juggler, 2);
    assert_eq!(parsed.beats[1].throws[0].modifier.as_deref(), Some("BHL"));
}

#[test]
fn grammar_reads_bounce_and_braced_throws() {
    let (bounce, _, _) = read("3BHL");
    assert_eq!(bounce.beats.len(), 1);
    assert_eq!(bounce.beats[0].throws[0].modifier.as_deref(), Some("BHL"));
    let (braced, _, max_throw) = read("{666}");
    assert_eq!(max_throw, 666);
    assert_eq!(braced.beats[0].throws[0].value, 666);
}

#[test]
fn grammar_matches_original_pattern_cases() {
    let cases = [
        ("868671", 1, 6),
        ("(4,3x)!(2,0)!(3x,0)!", 1, 4),
        ("(0,6x)!(0,0)!(6x,0)!(0,0)!", 1, 3),
        ("4x1(4x,3x)*", 1, 3),
        ("([42],4x)*", 1, 5),
        ("(645^2)65x6x1x((6x,4)*^2)(7,5x)(4,1x)!", 1, 5),
        (
            "<([2xp/2x],[2xp/2])|(2,[2/2xp])><(2,[2p/2])|([2/2p],[2/2p])>",
            2,
            7,
        ),
        ("{49}1", 1, 25),
        ("3BB", 1, 3),
        ("R3R3xL3L3x", 1, 3),
        ("<R|L><4xp|3><3|4xp>", 2, 7),
        ("(4,5x)(4,1x)!R5x41x", 1, 4),
        ("0", 1, 0),
        ("<0|0>", 2, 0),
        ("[53] 22", 1, 4),
        ("[5 3  ] 2 2 ", 1, 4),
        (" (2,4x) ([4x 4] , 2) ", 1, 4),
        ("{5}{1}", 1, 3),
        ("5{1}", 1, 3),
        ("{5}1{5}1", 1, 3),
    ];
    for (pattern, jugglers, balls) in cases {
        let (parsed, counted, _) = read(pattern);
        assert_eq!(parsed.jugglers, jugglers, "{pattern}");
        assert_eq!(counted, balls, "{pattern}");
    }
}

#[test]
fn grammar_rejects_invalid_generalized_syntax() {
    for pattern in [
        "", "(4,4", "[53", "<3|3", "<3|3><3|3|3>", "<3|33>", "3*3", "Q3", "52", "?",
    ] {
        let refused = match parse_siteswap_pattern(pattern) {
            Err(_) => true,
            Ok(parsed) => pattern_counts(&parsed.beats).is_err(),
        };
        assert!(refused, "{pattern}");
    }
}

#[test]
fn grammar_error_messages() {
    assert_eq!(
        parse_siteswap_pattern("?").err().unwrap(),
        "Wildcard transitions are not implemented by Juggling Lab"
    );
    assert_eq!(
        parse_siteswap_pattern("3*3").err().unwrap(),
        "Switch-repeat '*' must terminate its pattern"
    );
    assert_eq!(
        parse_siteswap_pattern("<3|3><3|3|3>").err().unwrap(),
        "Inconsistent number of jugglers"
    );
    assert_eq!(
        parse_siteswap_pattern("<3|33>").err().unwrap(),
        "Inconsistent number of beats between jugglers"
    );
    assert_eq!(
        parse_siteswap_pattern("Q3").err().unwrap(),
        "Unexpected character in siteswap: Q"
    );
    assert_eq!(
        parse_siteswap_pattern("[53").err().unwrap(),
        "Invalid multiplex: missing ']'"
    );
    assert_eq!(
        parse_siteswap_pattern("{12").err().unwrap(),
        "Invalid braced siteswap throw: missing '}'"
    );
    assert_eq!(
        parse_siteswap_pattern("{x}").err().unwrap(),
        "Invalid braced siteswap throw: {x}"
    );
    assert_eq!(
        parse_siteswap_pattern("(3,3,3)").err().unwrap(),
        "Invalid synchronous group: (3,3,3)"
    );
    assert_eq!(
        parse_siteswap_pattern("[3 Q]").err().unwrap(),
        "Unexpected character in multiplex: Q"
    );
    let empty = parse_siteswap_pattern("").unwrap();
    assert_eq!(
        pattern_counts(&empty.beats).err().unwrap(),
        "The siteswap pattern contains no readable throws"
    );
    let uneven = parse_siteswap_pattern("52").unwrap();
    assert_eq!(
        pattern_counts(&uneven.beats).err().unwrap(),
        "The siteswap pattern does not have an integer average"
    );
}

#[test]
fn repeats_and_hand_letters() {
    let (parsed, balls, _) = read("(3^4)");
    assert_eq!(parsed.beats.len(), 4);
    assert_eq!(balls, 3);
    let (left_first, _, _) = read("L3");
    assert_eq!(left_first.beats[0].throws[0].hand, Hand::Left);
    assert!(left_first.beats[0].throws[0].hand_fixed);
    assert!(!left_first.vanilla_async);
    let (rests, _, max_throw) = read("<[]|[]>");
    assert_eq!(rests.beats.len(), 1);
    assert!(rests.beats[0].throws.is_empty());
    assert_eq!(max_throw, 3);
}

#[test]
fn reads_parameters_and_booleans() {
    let params = parse_params(" pattern = 531 ; bps=4.0;junk; title=A=B");
    assert_eq!(
        params,
        vec![
            ("pattern".to_string(), "531".to_string()),
            ("bps".to_string(), "4.0".to_string()),
            ("title".to_string(), "A=B".to_string()),
        ]
    );
    assert_eq!(parse_bool(" TRUE "), Ok(true));
    assert_eq!(parse_bool("false"), Ok(false));
    assert_eq!(parse_bool("yes"), Err("Invalid boolean value: yes".to_string()));
}

#[test]
fn builtin_siteswap_records_read() {
    for record in builtin_records() {
        let config = record.config.unwrap();
        let pattern = parse_params(&config)
            .into_iter()
            .find(|(key, _)| key.eq_ignore_ascii_case("pattern"))
            .map(|(_, value)| value)
            .unwrap_or(config);
        let (_, balls, _) = read(&pattern);
        assert_eq!(balls, 3);
    }
}
