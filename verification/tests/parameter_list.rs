use juggling_core::parameter_list::ParameterList;

#[test]
fn parses_and_replaces_parameters_case_insensitively() {
    let list = ParameterList::parse(Some("pattern=3;BPS=4;bps=5")).unwrap();
    assert_eq!(list.number_of_parameters(), 2);
    assert_eq!(list.get_parameter("bps"), Some("5"));
    assert_eq!(list.to_string(), "pattern=3;BPS=5");
}

#[test]
fn removes_parameters() {
    let mut list = ParameterList::parse(Some("pattern=531;title=Cascade")).unwrap();
    assert_eq!(list.remove_parameter("TITLE"), Some("Cascade".to_string()));
    assert_eq!(list.to_string(), "pattern=531");
}

#[test]
fn rejects_tokens_without_values() {
    let err = ParameterList::parse(Some("pattern=3;broken")).unwrap_err();
    assert!(err.contains("broken"));
}

#[test]
fn reads_back_what_was_added() {
    let mut list = ParameterList::new();
    assert!(!list.add_parameter("Pattern", "3"));
    assert_eq!(list.get_parameter("pattern"), Some("3"));
    assert!(list.add_parameter("PATTERN", "531"));
    assert_eq!(list.get_parameter("pattern"), Some("531"));
    assert_eq!(list.number_of_parameters(), 1);
    assert_eq!(list.get_parameter_name(0), Some("Pattern"));
    assert_eq!(list.get_parameter_value(0), Some("531"));
    assert_eq!(list.get_parameter_name(1), None);
}

#[test]
fn removing_what_was_added_restores_the_list() {
    let mut list = ParameterList::parse(Some("a=1;b=2")).unwrap();
    list.add_parameter("c", "3");
    assert_eq!(list.remove_parameter("C"), Some("3".to_string()));
    assert_eq!(list.to_string(), "a=1;b=2");
    assert_eq!(list.get_parameter("c"), None);
    assert_eq!(list.remove_parameter("c"), None);
}

#[test]
fn ignores_blank_tokens_and_line_breaks() {
    let list = ParameterList::parse(Some(" pattern = 3 ;;\n title=Cas\rcade; =x")).unwrap();
    assert_eq!(list.number_of_parameters(), 2);
    assert_eq!(list.get_parameter("title"), Some("Cascade"));
    assert_eq!(list.iter(), vec![("pattern".to_string(), "3".to_string()), ("title".to_string(), "Cascade".to_string())]);
    assert_eq!(ParameterList::parse(None).unwrap().number_of_parameters(), 0);
}

#[test]
fn reports_unused_parameters() {
    assert!(ParameterList::new().error_if_parameters_left().is_ok());
    let one = ParameterList::parse(Some("a=1")).unwrap();
    assert_eq!(one.error_if_parameters_left().unwrap_err(), "Unused parameter: \"a\"");
    let two = ParameterList::parse(Some("a=1;b=2")).unwrap();
    assert_eq!(two.error_if_parameters_left().unwrap_err(), "Unused parameters: \"a\", \"b\"");
    assert_eq!(
        ParameterList::parse(Some("x=1;oops")).unwrap_err(),
        "Parameter without a value: oops"
    );
}
