use juggling_core::hand_siteswap::{
    converted_pattern, default_handspec, hss_throw_modifiers, lay_out_hands, numeric_value,
    parse_handspec, parse_hand_siteswap, parse_object_siteswap, validate_hand_permutation,
    validate_object_permutation,
};

#[test]
fn reads_object_siteswaps() {
    let bounce = parse_object_siteswap("3BHL").unwrap();
    assert_eq!(bounce.throws, vec![vec!['3']]);
    assert_eq!(bounce.bounce_modifiers, vec![vec!["BHL ".to_string()]]);
    let multiplex = parse_object_siteswap("[4 3]1").unwrap();
    assert_eq!(multiplex.throws, vec![vec!['4', '3'], vec!['1']]);
    assert_eq!(
        multiplex.bounce_modifiers,
        vec![vec![" ".to_string(), " ".to_string()], vec![" ".to_string()]]
    );
    assert_eq!(
        parse_object_siteswap("[53]1").err().unwrap(),
        "HSS object siteswap has an invalid average"
    );
    assert_eq!(
        parse_object_siteswap("3?").err().unwrap(),
        "Invalid HSS object throw at position 2"
    );
    assert_eq!(parse_object_siteswap(" ").err().unwrap(), "HSS object siteswap is empty");
    assert_eq!(
        parse_object_siteswap("[3").err().unwrap(),
        "Invalid HSS object multiplex syntax"
    );
    assert_eq!(numeric_value('B'), Some(11));
}

#[test]
fn reads_hand_siteswaps() {
    let two = parse_hand_siteswap("114").unwrap();
    assert_eq!(two.throws, vec!['1', '1', '4']);
    assert_eq!(two.hands, 2);
    assert_eq!(parse_hand_siteswap("2266").unwrap().hands, 4);
    assert_eq!(parse_hand_siteswap("").err().unwrap(), "HSS hand siteswap is empty");
    assert_eq!(
        parse_hand_siteswap("12").err().unwrap(),
        "HSS hand siteswap has an invalid average"
    );
    assert_eq!(
        parse_hand_siteswap("1?").err().unwrap(),
        "Invalid HSS hand throw at position 2"
    );
}

#[test]
fn checks_permutations_and_orbits() {
    assert_eq!(validate_object_permutation(&vec![vec!['3']]), Ok(()));
    assert_eq!(validate_object_permutation(&vec![vec!['5'], vec!['1']]), Ok(()));
    assert_eq!(
        validate_object_permutation(&vec![vec!['2'], vec!['1']]),
        Err("HSS object siteswap is not a valid permutation".to_string())
    );
    assert_eq!(validate_hand_permutation(&vec!['1', '1', '4']), Ok(6));
    assert_eq!(validate_hand_permutation(&vec!['2', '2', '6', '6']), Ok(8));
    assert_eq!(validate_hand_permutation(&vec!['0']), Ok(1));
    assert_eq!(
        validate_hand_permutation(&vec!['2', '1']),
        Err("HSS hand siteswap is not a valid permutation".to_string())
    );
}

#[test]
fn reads_handspecs() {
    assert_eq!(
        parse_handspec("(1,2)(3,4)", 4),
        Ok(vec![(1, 0), (1, 1), (2, 0), (2, 1)])
    );
    assert_eq!(
        parse_handspec("(1,2)", 3).err().unwrap(),
        "HSS hand 3 is not assigned to a juggler"
    );
    assert_eq!(
        parse_handspec("(1,1)", 2).err().unwrap(),
        "HSS hand 1 is assigned more than once"
    );
    assert_eq!(
        parse_handspec("(1,5)", 2).err().unwrap(),
        "HSS hand number out of range: 5"
    );
    assert_eq!(
        parse_handspec("x", 2).err().unwrap(),
        "Invalid handspec syntax at position 1"
    );
    assert_eq!(
        parse_handspec("(1,2", 2).err().unwrap(),
        "Invalid handspec syntax: missing ')'"
    );
    assert_eq!(
        parse_handspec("(12)", 2).err().unwrap(),
        "Invalid handspec syntax: missing ','"
    );
    assert_eq!(
        parse_handspec("(,)", 0).err().unwrap(),
        "Each handspec juggler must contain at least one hand"
    );
    assert_eq!(parse_handspec("", 0).err().unwrap(), "Invalid handspec syntax");
    assert_eq!(
        parse_handspec("(a,1)", 1).err().unwrap(),
        "Invalid handspec hand number: a"
    );
    assert_eq!(default_handspec(3), vec![(1, 1), (2, 1), (1, 0)]);
    assert_eq!(default_handspec(4), vec![(1, 1), (2, 1), (1, 0), (2, 0)]);
}

#[test]
fn converts_two_handed_hss_to_passing_sync_notation_text() {
    let mut object = parse_object_siteswap("3").unwrap();
    let mut hands = parse_hand_siteswap("114").unwrap();
    let orbit = validate_hand_permutation(&hands.throws).unwrap();
    let handmap = default_handspec(hands.hands);
    let info = lay_out_hands(&mut object, &mut hands, orbit, &handmap).unwrap();
    assert_eq!(object.throws.len(), 6);
    assert_eq!(hands.throws, vec!['1', '1', '4', '1', '1', '4']);
    assert_eq!(info, vec![(1, 1), (1, 1), (1, 1), (1, 0), (1, 0), (1, 0)]);
    let modifiers =
        hss_throw_modifiers(&object.throws, &object.bounce_modifiers, &hands.throws, &info, false);
    let pattern = converted_pattern(&object.throws, &modifiers, &info, 1);
    assert_eq!(
        pattern,
        "<(0,3 )!><(0,3 )!><(0,3 )!><(3 ,0)!><(3 ,0)!><(3 ,0)!>"
    );
    assert!(pattern.contains("(0,3"));
}

#[test]
fn converts_multi_juggler_hss_with_passes() {
    let mut object = parse_object_siteswap("3773").unwrap();
    validate_object_permutation(&object.throws).unwrap();
    let mut hands = parse_hand_siteswap("2266").unwrap();
    let orbit = validate_hand_permutation(&hands.throws).unwrap();
    let handmap = parse_handspec("(1,2)(3,4)", hands.hands).unwrap();
    let info = lay_out_hands(&mut object, &mut hands, orbit, &handmap).unwrap();
    assert_eq!(info.len(), 8);
    let modifiers =
        hss_throw_modifiers(&object.throws, &object.bounce_modifiers, &hands.throws, &info, false);
    let pattern = converted_pattern(&object.throws, &modifiers, &info, 2);
    assert!(pattern.contains("p2"));
}

#[test]
fn reports_beats_without_a_hand() {
    let mut object = parse_object_siteswap("3").unwrap();
    let mut hands = parse_hand_siteswap("0").unwrap();
    let handmap = default_handspec(hands.hands);
    assert_eq!(
        lay_out_hands(&mut object, &mut hands, 1, &handmap).err().unwrap(),
        "HSS has no hand available to throw at beat 1"
    );
}
