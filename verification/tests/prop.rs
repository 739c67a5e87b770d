use juggling_core::prop::{css_color, css_color_name};

#[test]
fn names_colors() {
    assert_eq!(css_color_name("Blue"), "#0000ff");
    assert_eq!(css_color_name("grey"), "#808080");
    assert_eq!(css_color_name("chartreuse"), "#ff0000");
}

#[test]
fn reads_color_components() {
    assert_eq!(css_color(" {255,0,128} ").unwrap(), "rgb(255,0,128)");
    assert_eq!(css_color("1,2,3,255").unwrap(), "rgba(1,2,3,1.000)");
    assert_eq!(css_color("1,2,3,128").unwrap(), "rgba(1,2,3,0.502)");
    assert_eq!(css_color("1,2,3,0").unwrap(), "rgba(1,2,3,0.000)");
    assert_eq!(css_color("{1, 2}").unwrap_err(), "Invalid prop color: {1, 2}");
    assert_eq!(css_color("1,2,300").unwrap_err(), "Invalid prop color: 1,2,300");
    assert_eq!(css_color("green").unwrap(), "#008000");
}
