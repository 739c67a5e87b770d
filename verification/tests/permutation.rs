use juggling_core::permutation::{lcm, Permutation};

#[test]
fn identity_outputs_cycle_notation() {
    let perm = Permutation::identity(3);
    assert_eq!(perm.to_string(), "(1)(2)(3)");
    assert_eq!(perm.to_string_with_cycles(false), "1,2,3");
    assert_eq!(perm.order(), 1);
}

#[test]
fn parses_explicit_mapping() {
    let perm = Permutation::parse(3, "2,3,1", false).unwrap();
    assert_eq!(perm.map(1), 2);
    assert_eq!(perm.map_power(1, 2), 3);
    assert_eq!(perm.map_inverse(2), 1);
    assert_eq!(perm.inverse().map(2), 1);
    assert_eq!(perm.order(), 3);
    assert_eq!(perm.cycle_of(1), vec![1, 2, 3]);
}

#[test]
fn parses_cycle_mapping() {
    let perm = Permutation::parse(4, "(1,3,2)", false).unwrap();
    assert_eq!(perm.map(1), 3);
    assert_eq!(perm.map(3), 2);
    assert_eq!(perm.map(2), 1);
    assert_eq!(perm.map(4), 4);
    assert_eq!(perm.to_string(), "(1,3,2)(4)");
}

#[test]
fn parses_reversing_cycle_mapping() {
    let perm = Permutation::parse(2, "(1,2*)", true).unwrap();
    assert_eq!(perm.map(1), -2);
    assert_eq!(perm.map(-2), 1);
    assert_eq!(perm.map(-1), 2);
    assert_eq!(perm.map(2), -1);
    assert_eq!(perm.to_string(), "(1,2*)");
}

#[test]
fn parses_explicit_reversing_mapping() {
    let perm = Permutation::parse(2, "2,1", true).unwrap();
    assert_eq!(perm.map(1), 2);
    assert_eq!(perm.map(2), 1);
    assert_eq!(perm.map(-1), -2);
    assert_eq!(perm.map(-2), -1);
}

#[test]
fn computes_lcm() {
    assert_eq!(lcm(6, 8), 24);
}

#[test]
fn lcm_of_zero_is_zero_and_a_common_multiple_otherwise() {
    assert_eq!(lcm(0, 5), 0);
    assert_eq!(lcm(5, 0), 0);
    assert_eq!(lcm(4, 6), 12);
    assert_eq!(lcm(7, 7), 7);
    let l = lcm(9, 12);
    assert_eq!(l % 9, 0);
    assert_eq!(l % 12, 0);
}

#[test]
fn inverse_undoes_every_element() {
    let perm = Permutation::parse(5, "(1,4,2)(3,5)", false).unwrap();
    let inv = perm.inverse();
    for e in 1..=5 {
        assert_eq!(inv.map(perm.map(e)), e);
        assert_eq!(perm.map_inverse(perm.map(e)), e);
    }
}

#[test]
fn power_and_negative_power_return_to_the_element() {
    let perm = Permutation::parse(5, "3,5,4,1,2", false).unwrap();
    for e in 1..=5 {
        for k in 0..7 {
            assert_eq!(perm.map_power(perm.map_power(e, k), -k), e);
        }
    }
}

#[test]
fn orders_are_those_of_the_cycles() {
    let perm = Permutation::parse(5, "(1,2)(3,4,5)", false).unwrap();
    assert_eq!(perm.order_of(1), 2);
    assert_eq!(perm.order_of(3), 3);
    assert_eq!(perm.order(), 6);
    assert_eq!(perm.max_order(), 3);
    assert_eq!(perm.to_string_with_cycles(true), "(1,2)(3,4,5)");
    assert_eq!(perm.to_string_with_cycles(false), "2,1,4,5,3");
}

#[test]
fn composes_two_permutations() {
    let first = Permutation::parse(3, "2,3,1", false).unwrap();
    let second = Permutation::parse(3, "2,1,3", false).unwrap();
    let both = first.composed_with(Some(&second));
    assert_eq!(both.map(1), 1);
    assert_eq!(both.map(2), 3);
    assert_eq!(both.map(3), 2);
    assert_eq!(first.composed_with(None), first);
}

#[test]
fn rejects_malformed_permutations() {
    assert!(Permutation::parse(3, "1,1,2", false).is_err());
    assert!(Permutation::parse(3, "1,2", false).is_err());
    assert!(Permutation::parse(3, "(1,4)", false).is_err());
    assert!(Permutation::parse(3, "(1,2)(2,3)", false).is_err());
    assert!(Permutation::parse(3, "1,x,2", false).is_err());
    assert!(Permutation::parse(0, "  ", false).is_ok());
}

#[test]
fn reversing_cycles_write_starred_elements() {
    let perm = Permutation::parse(3, "(1,2*)(3)", true).unwrap();
    assert_eq!(perm.map(3), 3);
    assert_eq!(perm.map(-3), -3);
    assert_eq!(perm.map(0), 0);
    assert!(perm.has_reverses());
    assert_eq!(perm.size(), 3);
}

#[test]
fn explicit_parse_errors_name_the_problem() {
    assert_eq!(
        Permutation::parse(3, "1,2", false).unwrap_err(),
        "Invalid permutation format: expected 3 elements"
    );
    assert_eq!(Permutation::parse(3, "1,1,2", false).unwrap_err(), "Permutation is not one-to-one");
    assert_eq!(Permutation::parse(3, "1,2,4", false).unwrap_err(), "Permutation element out of range");
    assert_eq!(Permutation::parse(3, "(1,4)", false).unwrap_err(), "Permutation element out of range");
    assert_eq!(Permutation::parse(2, "1,x", false).unwrap_err(), "Invalid number in permutation");
}

#[test]
fn printed_explicit_form_parses_back() {
    let p = Permutation::parse(4, "2,3,1,4", false).unwrap();
    let text = p.to_string_with_cycles(false);
    let q = Permutation::parse(4, &text, false).unwrap();
    assert_eq!(q, p);
}

#[test]
fn inverting_twice_gives_the_permutation() {
    let p = Permutation::parse(3, "2,3,1", false).unwrap();
    let q = p.inverse();
    assert_eq!(q.map(2), 1);
    assert_eq!(q.inverse(), p);
}

#[test]
fn reversing_permutation_orbits_return() {
    let p = Permutation::parse(2, "(1,2*)", true).unwrap();
    assert!(p.positives_return());
}

#[test]
fn printed_cycle_form_parses_back() {
    let p = Permutation::parse(6, "4,1,6,2,5,3", false).unwrap();
    let text = p.to_string_with_cycles(true);
    assert_eq!(text, "(1,4,2)(3,6)(5)");
    let q = Permutation::parse(6, &text, false).unwrap();
    assert_eq!(q, p);
}
