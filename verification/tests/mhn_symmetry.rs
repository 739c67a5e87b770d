use juggling_core::mhn_symmetry::{MhnSymmetry, MhnSymmetryType};

#[test]
fn creates_identity_juggler_permutation() {
    let sym = MhnSymmetry::new(MhnSymmetryType::Delay, 2, None, 3).unwrap();
    assert_eq!(sym.type_code(), MhnSymmetry::TYPE_DELAY);
    assert_eq!(sym.juggler_perm.map(1), 1);
    assert_eq!(sym.juggler_perm.map(-1), -1);
}

#[test]
fn parses_reversing_juggler_permutation() {
    let sym = MhnSymmetry::new(
        MhnSymmetryType::SwitchDelay,
        2,
        Some("(1,2*)".to_string()),
        1,
    )
    .unwrap();
    assert_eq!(sym.type_code(), MhnSymmetry::TYPE_SWITCHDELAY);
    assert_eq!(sym.juggler_perm.map(1), -2);
    assert_eq!(sym.juggler_perm.map(-2), 1);
}

#[test]
fn switch_symmetry_has_its_code_and_bad_permutations_fail() {
    let sym = MhnSymmetry::new(MhnSymmetryType::Switch, 1, None, 0).unwrap();
    assert_eq!(sym.type_code(), MhnSymmetry::TYPE_SWITCH);
    assert!(MhnSymmetry::new(MhnSymmetryType::Delay, 2, Some("(1,3)".to_string()), 1).is_err());
}
