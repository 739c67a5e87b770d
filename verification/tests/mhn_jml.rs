use juggling_core::jml::{escape_xml, PatternRecord};
use juggling_core::mhn_jml::{MhnJmlProp, MhnJmlTransition, MhnJmlTransitionType};

fn transition(transition_type: MhnJmlTransitionType, path: usize) -> MhnJmlTransition {
    MhnJmlTransition {
        transition_type,
        path,
        throw_type: None,
        throw_mod: None,
    }
}

#[test]
fn writes_soft_and_grab_catches() {
    assert_eq!(
        transition(MhnJmlTransitionType::SoftCatch, 2).to_jml(),
        "<catch path=\"2\" type=\"soft\"/>\n"
    );
    assert_eq!(
        transition(MhnJmlTransitionType::GrabCatch, 3).to_jml(),
        "<catch path=\"3\" type=\"grab\"/>\n"
    );
}

#[test]
fn writes_throws_catches_and_holds() {
    let mut throw = transition(MhnJmlTransitionType::Throw, 1);
    assert_eq!(throw.to_jml(), "<throw path=\"1\"/>\n");
    throw.throw_type = Some("bounce".to_string());
    throw.throw_mod = Some("a<b".to_string());
    assert_eq!(throw.to_jml(), "<throw path=\"1\" type=\"bounce\" mod=\"a&lt;b\"/>\n");
    assert_eq!(transition(MhnJmlTransitionType::Catch, 12).to_jml(), "<catch path=\"12\"/>\n");
    assert_eq!(transition(MhnJmlTransitionType::Holding, 4).to_jml(), "<holding path=\"4\"/>\n");
}

#[test]
fn classifies_transitions() {
    assert!(MhnJmlTransitionType::SoftCatch.is_catch());
    assert!(!MhnJmlTransitionType::Throw.is_catch());
    assert!(MhnJmlTransitionType::Throw.is_throw_or_catch());
    assert!(!MhnJmlTransitionType::Holding.is_throw_or_catch());
}

#[test]
fn writes_props() {
    let ball = MhnJmlProp::new("ball".to_string(), Some("color=red".to_string()));
    assert_eq!(ball.to_jml(), "<prop type=\"ball\" mod=\"color=red\"/>\n");
    assert!(ball.is_colorable());
    let image = MhnJmlProp::new("Image".to_string(), None);
    assert_eq!(image.to_jml(), "<prop type=\"Image\"/>\n");
    assert!(!image.is_colorable());
}

#[test]
fn escapes_xml_special_characters() {
    assert_eq!(escape_xml("a&b<c>d\"e'f"), "a&amp;b&lt;c&gt;d&quot;e&apos;f");
    assert_eq!(escape_xml("plain"), "plain");
    assert_eq!(escape_xml("&amp;"), "&amp;amp;");
}

#[test]
fn siteswap_records_are_playable() {
    let record = PatternRecord::siteswap("Cascade", "pattern=3");
    assert_eq!(record.display, "Cascade");
    assert_eq!(record.notation.as_deref(), Some("siteswap"));
    assert_eq!(record.config.as_deref(), Some("pattern=3"));
    assert!(record.is_playable());
    let mut bare = record.clone();
    bare.config = None;
    assert!(!bare.is_playable());
    bare.raw_pattern = Some("<pattern/>".to_string());
    assert!(bare.is_playable());
}
