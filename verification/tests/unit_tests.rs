use fixml::clean_content;
use fixml::get_output_filename;
use fixml::is_closing_tag;
use fixml::is_container_element;
use fixml::is_opening_tag;
use fixml::is_self_contained;
use fixml::normalize_whitespace;
use fixml::u64_to_dec;

#[test]
fn clean_strips_byte_order_mark() {
    assert_eq!(clean_content("\u{FEFF}<a>"), "<a>");
    assert_eq!(clean_content("<a>"), "<a>");
}

#[test]
fn clean_unifies_line_endings() {
    assert_eq!(clean_content("a\r\nb\rc\nd"), "a\nb\nc\nd");
    assert_eq!(clean_content("\r\r\n"), "\n\n");
    assert_eq!(clean_content(""), "");
}

#[test]
fn container_detection() {
    assert!(is_container_element("<items>"));
    assert!(is_container_element("</items>"));
    assert!(is_container_element("  <items>  "));
    assert!(is_container_element("<a:b-c.d>"));
    assert!(!is_container_element("<items >"));
    assert!(!is_container_element("<item/>"));
    assert!(!is_container_element("<a b>"));
    assert!(!is_container_element("<>"));
    assert!(!is_container_element("plain text"));
}

#[test]
fn empty_name_closing_form_counts_as_container() {
    assert!(is_container_element("</>"));
}

#[test]
fn self_contained_detection() {
    assert!(is_self_contained("<a>1</a>"));
    assert!(is_self_contained("<tag>text</tag>"));
    assert!(is_self_contained("<a attr='q'>text</a>"));
    assert!(is_self_contained("  <a>1</a>  "));
    assert!(!is_self_contained("<a>1</b>"));
    assert!(!is_self_contained("<abc>x</ab>"));
    assert!(!is_self_contained("<a>"));
    assert!(!is_self_contained("plain"));
}

#[test]
fn self_contained_needs_content() {
    assert!(!is_self_contained("<a></a>"));
    assert!(!is_self_contained("<a attr=\"v\"></a>"));
}

#[test]
fn opening_tag_detection() {
    assert!(is_opening_tag("<a>"));
    assert!(is_opening_tag("<tag attr=\"v\">"));
    assert!(!is_opening_tag("</a>"));
    assert!(!is_opening_tag("<c/>"));
    assert!(!is_opening_tag("<!-- comment -->"));
    assert!(!is_opening_tag("<?xml version=\"1.0\"?>"));
    assert!(!is_opening_tag("<a>1</a>"));
    assert!(!is_opening_tag("text"));
}

#[test]
fn closing_tag_detection() {
    assert!(is_closing_tag("</a>"));
    assert!(is_closing_tag("  </a>  "));
    assert!(!is_closing_tag("<a>"));
    assert!(!is_closing_tag("a"));
}

#[test]
fn normalize_collapses_outside_quotes_only() {
    assert_eq!(normalize_whitespace("a   b"), "a b");
    assert_eq!(normalize_whitespace("  a\t b  "), "a b");
    assert_eq!(normalize_whitespace("<t a=\"x  y\">"), "<t a=\"x  y\">");
    assert_eq!(normalize_whitespace("<t  a='p  q'  >"), "<t a='p  q' >");
    assert_eq!(normalize_whitespace(""), "");
    assert_eq!(normalize_whitespace("   "), "");
}

#[test]
fn normalize_handles_unclosed_quotes() {
    assert_eq!(normalize_whitespace("a \"b  c"), "a \"b  c");
}

#[test]
fn output_name_splices_before_extension() {
    assert_eq!(get_output_filename("file.xml", false), "file.organized.xml");
    assert_eq!(get_output_filename("a.b.c", false), "a.b.organized.c");
    assert_eq!(get_output_filename("noext", false), "noext.organized");
}

#[test]
fn replace_mode_appends_timestamped_suffix() {
    let name = get_output_filename("x.xml", true);
    assert!(name.starts_with("x.xml.tmp."));
    let suffix = &name["x.xml.tmp.".len()..];
    assert!(!suffix.is_empty());
    assert!(suffix.chars().all(|c| c.is_ascii_digit()));
}

#[test]
fn decimal_rendering() {
    assert_eq!(u64_to_dec(0), "0");
    assert_eq!(u64_to_dec(7), "7");
    assert_eq!(u64_to_dec(1234567890), "1234567890");
    assert_eq!(u64_to_dec(u64::MAX), "18446744073709551615");
}
