use fixml::process_xml_with_deduplication;

#[test]
fn scenario_nested_document_with_duplicate() {
    let input = "<root>\n<a>1</a>\n<a>1</a>\n<b>\n<c/>\n</b>\n</root>";
    let (out, dups) = process_xml_with_deduplication(input, false);
    assert_eq!(out, "<root>\n  <a>1</a>\n  <b>\n    <c/>\n  </b>\n</root>\n");
    assert_eq!(dups, 1);
}

#[test]
fn repeated_attribute_line_is_removed() {
    let input = "<tag attr=\"a   b\">\n<tag attr=\"a   b\">";
    let (out, dups) = process_xml_with_deduplication(input, false);
    assert_eq!(out, "<tag attr=\"a   b\">\n");
    assert_eq!(dups, 1);
}

#[test]
fn outer_space_runs_merge_self_contained_lines() {
    let input = "<p>hello  world</p>\n<p>hello world</p>";
    let (out, dups) = process_xml_with_deduplication(input, false);
    assert_eq!(out, "<p>hello  world</p>\n");
    assert_eq!(dups, 1);
}

#[test]
fn unmatched_closing_tag_keeps_depth_at_zero() {
    let input = "</x>\n<a>1</a>";
    let (out, dups) = process_xml_with_deduplication(input, false);
    assert_eq!(out, "</x>\n<a>1</a>\n");
    assert_eq!(dups, 0);
}

#[test]
fn repeated_container_lines_all_survive() {
    let input = "<items>\n<items>\n<items>";
    let (out, dups) = process_xml_with_deduplication(input, false);
    assert_eq!(out, "<items>\n  <items>\n    <items>\n");
    assert_eq!(dups, 0);
}

#[test]
fn whitespace_inside_quotes_distinguishes_lines() {
    let input = "<t a=\"x  y\">\n<t a=\"x y\">";
    let (out, dups) = process_xml_with_deduplication(input, false);
    assert_eq!(out, "<t a=\"x  y\">\n  <t a=\"x y\">\n");
    assert_eq!(dups, 0);
}

#[test]
fn whitespace_outside_quotes_merges_lines() {
    let input = "<t  a=\"x\">\n<t a=\"x\">";
    let (out, dups) = process_xml_with_deduplication(input, false);
    assert_eq!(out, "<t  a=\"x\">\n");
    assert_eq!(dups, 1);
}

#[test]
fn processing_twice_changes_nothing() {
    let input = "<root>\n<a>1</a>\n<a>1</a>\n<b>\n<c/>\n</b>\n</root>";
    let (once, _) = process_xml_with_deduplication(input, false);
    let (twice, dups) = process_xml_with_deduplication(&once, false);
    assert_eq!(twice, once);
    assert_eq!(dups, 0);
}

#[test]
fn empty_input_yields_empty_output() {
    let (out, dups) = process_xml_with_deduplication("", false);
    assert_eq!(out, "");
    assert_eq!(dups, 0);
}

#[test]
fn blank_lines_are_discarded() {
    let input = "alpha\n\n   \nbeta";
    let (out, dups) = process_xml_with_deduplication(input, false);
    assert_eq!(out, "alpha\nbeta\n");
    assert_eq!(dups, 0);
}

#[test]
fn duplicate_plain_content_lines_are_counted() {
    let input = "hello\nhello\nhello";
    let (out, dups) = process_xml_with_deduplication(input, false);
    assert_eq!(out, "hello\n");
    assert_eq!(dups, 2);
}

#[test]
fn xml_declaration_kept_by_default() {
    let input = "<?xml version=\"1.0\"?>\n<a>";
    let (out, dups) = process_xml_with_deduplication(input, false);
    assert_eq!(out, "<?xml version=\"1.0\"?>\n<a>\n");
    assert_eq!(dups, 0);
}

#[test]
fn xml_declaration_stripped_on_request() {
    let input = "<?xml version=\"1.0\"?>\n<a>";
    let (out, dups) = process_xml_with_deduplication(input, true);
    assert_eq!(out, "<a>\n");
    assert_eq!(dups, 0);
}

#[test]
fn self_closing_line_does_not_change_depth() {
    let input = "<r>\n<c/>\n<d>x</d>\n</r>";
    let (out, dups) = process_xml_with_deduplication(input, false);
    assert_eq!(out, "<r>\n  <c/>\n  <d>x</d>\n</r>\n");
    assert_eq!(dups, 0);
}

#[test]
fn nesting_deeper_than_the_indent_table() {
    let mut input = String::new();
    for i in 0..70 {
        input.push_str(&format!("<t{}>\n", i));
    }
    input.push_str("leaf\n");
    let (out, dups) = process_xml_with_deduplication(&input, false);
    assert_eq!(dups, 0);
    let last = out.lines().last().unwrap();
    let expected_indent = " ".repeat(140);
    assert_eq!(last, format!("{}leaf", expected_indent));
}

#[test]
fn comments_and_doctype_do_not_open_depth() {
    let input = "<!-- note -->\n<!DOCTYPE html>\n<a>";
    let (out, dups) = process_xml_with_deduplication(input, false);
    assert_eq!(out, "<!-- note -->\n<!DOCTYPE html>\n<a>\n");
    assert_eq!(dups, 0);
}
