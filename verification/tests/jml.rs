use juggling_core::jml::{extract_pattern_xml, parse_jml, write_pattern_list, PatternRecord};

#[test]
fn parses_pattern_list() {
    let xml = r#"<?xml version="1.0"?>
<jml version="3"><patternlist><title>Test</title>
<line display="3" notation="siteswap">pattern=3</line>
</patternlist></jml>"#;
    let library = parse_jml(xml).unwrap();
    assert_eq!(library.title.as_deref(), Some("Test"));
    assert_eq!(library.records.len(), 1);
    assert_eq!(library.records[0].config.as_deref(), Some("pattern=3"));
}

#[test]
fn extracts_pattern_fragment_from_full_jml() {
    let xml = r#"
        <?xml version="1.0"?>
        <!DOCTYPE jml SYSTEM "file://jml.dtd">
        <jml version="3">
        <pattern>
        <title>Fragment</title>
        <setup jugglers="1" paths="1"/>
        </pattern>
        </jml>
        "#;

    let fragment = extract_pattern_xml(xml).unwrap();

    assert!(fragment.trim_start().starts_with("<pattern>"));
    assert!(fragment.contains("<title>Fragment</title>"));
    assert!(!fragment.contains("<jml"));
}

#[test]
fn extracts_bare_pattern_and_escapes_text() {
    let fragment = extract_pattern_xml("  <pattern a=\"1\">x &amp; y<!--c--><e/></pattern>").unwrap();
    assert_eq!(fragment, "<pattern a=\"1\">x &amp; y<!--c--><e/></pattern>");
    assert_eq!(
        extract_pattern_xml("<jml version=\"3\"/>").unwrap_err(),
        "Missing <pattern> tag"
    );
    assert!(extract_pattern_xml("<pattern>").unwrap_err().starts_with("Invalid XML/JML: "));
}

#[test]
fn reads_single_pattern_and_reports_missing_parts() {
    let xml = "<jml><pattern><title> Solo </title><info tags=\"x, y\">About</info><basepattern> pattern=3 </basepattern></pattern></jml>";
    let library = parse_jml(xml).unwrap();
    assert_eq!(library.title.as_deref(), Some("Solo"));
    assert_eq!(library.info.as_deref(), Some("About"));
    let record = &library.records[0];
    assert_eq!(record.display, "Solo");
    assert_eq!(record.notation.as_deref(), Some("jml"));
    assert_eq!(record.config.as_deref(), Some("pattern=3"));
    assert_eq!(record.tags, vec!["x".to_string(), "y".to_string()]);
    assert!(record.raw_pattern.as_deref().unwrap().starts_with("<pattern><title> Solo </title>"));
    assert_eq!(parse_jml("<other/>").unwrap_err(), "Missing <jml> tag");
    assert_eq!(
        parse_jml("<jml><title/></jml>").unwrap_err(),
        "The JML file does not contain a pattern or patternlist"
    );
}

#[test]
fn writes_pattern_list() {
    let mut with_info = PatternRecord::siteswap("Shower", "pattern=51");
    with_info.info = Some("two & more".to_string());
    with_info.tags = vec!["a".to_string(), "b".to_string()];
    let records = vec![PatternRecord::siteswap("3 cascade ", "pattern=3"), with_info];
    let text = write_pattern_list("My <list>", &records);
    assert_eq!(
        text,
        "<?xml version=\"1.0\"?>\n<!DOCTYPE jml SYSTEM \"file://jml.dtd\">\n<jml version=\"3\">\n<patternlist>\n<title>My &lt;list&gt;</title>\n\n<line display=\"3 cascade\" notation=\"siteswap\">\npattern=3\n</line>\n\n<line display=\"Shower\" notation=\"siteswap\">\npattern=51\n<info tags=\"a,b\">two &amp; more</info>\n</line>\n</patternlist>\n</jml>\n"
    );
}

#[test]
fn written_pattern_list_reads_back() {
    let mut with_info = PatternRecord::siteswap("Shower", "pattern=51");
    with_info.info = Some("fast".to_string());
    with_info.tags = vec!["a".to_string()];
    let records = vec![PatternRecord::siteswap("3 cascade", "pattern=3"), with_info];
    let library = parse_jml(&write_pattern_list("Mine", &records)).unwrap();
    assert_eq!(library.title.as_deref(), Some("Mine"));
    assert_eq!(library.records, records);
}

#[test]
fn writes_jml_records_with_their_pattern() {
    let record = PatternRecord {
        display: "Imported".to_string(),
        notation: Some("JML".to_string()),
        config: None,
        animprefs: Some("stereo=true".to_string()),
        info: None,
        tags: Vec::new(),
        raw_pattern: Some("<jml version=\"3\"><pattern><title>T</title></pattern></jml>".to_string()),
    };
    let text = write_pattern_list("L", &[record]);
    assert!(text.contains(
        "<line display=\"Imported\" notation=\"jml\" animprefs=\"stereo=true\">\n<pattern><title>T</title></pattern>\n</line>\n"
    ));
}
