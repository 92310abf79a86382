use eml::header_map::HeaderMap;
use eml::parser::parse_headers;

#[test]
fn parses_simple_header_block() {
    let h = parse_headers("Subject: test\r\nFrom: a@example.com\r\nTo: b@example.com\r\n");
    assert_eq!(h.get("Subject").unwrap().as_str(), "test");
    assert_eq!(h.get("From").unwrap().as_str(), "a@example.com");
    assert_eq!(h.get("To").unwrap().as_str(), "b@example.com");
    assert_eq!(h.len(), 3);
}

#[test]
fn folded_value_joins_with_leading_whitespace_stripped() {
    // A continuation line's content is appended with its leading whitespace
    // stripped and no separator inserted.
    let h = parse_headers("Subject: Hello\r\n World");
    assert_eq!(h.get("Subject").unwrap().as_str(), "HelloWorld");
    assert_eq!(h.len(), 1);
}

#[test]
fn folded_value_over_two_continuation_lines() {
    let h = parse_headers("Subject: a\r\n\tb\r\n c\r\nFrom: x\r\n");
    assert_eq!(h.get("Subject").unwrap().as_str(), "abc");
    assert_eq!(h.get("From").unwrap().as_str(), "x");
}

#[test]
fn line_without_colon_is_dropped() {
    let h = parse_headers("garbage line only");
    assert!(h.is_empty());
    assert_eq!(h.len(), 0);
}

#[test]
fn last_occurrence_of_a_name_wins() {
    let h = parse_headers("X: 1\r\nX: 2\r\n");
    assert_eq!(h.get("X").unwrap().as_str(), "2");
    assert_eq!(h.len(), 1);
}

#[test]
fn leading_continuation_line_is_dropped() {
    let h = parse_headers(" leading space");
    assert!(h.is_empty());
}

#[test]
fn leading_continuation_then_field() {
    let h = parse_headers(" stray\r\nA: 1\r\n");
    assert_eq!(h.len(), 1);
    assert_eq!(h.get("A").unwrap().as_str(), "1");
}

#[test]
fn empty_input_yields_empty_map() {
    let h = parse_headers("");
    assert!(h.is_empty());
}

#[test]
fn empty_line_terminates_the_block() {
    let h = parse_headers("A: 1\r\n\r\nB: 2\r\n");
    assert_eq!(h.get("A").unwrap().as_str(), "1");
    assert!(h.get("B").is_none());
    assert_eq!(h.len(), 1);
}

#[test]
fn names_and_values_are_trimmed() {
    let h = parse_headers("Subject  :   spaced out   \r\n");
    assert_eq!(h.get("Subject").unwrap().as_str(), "spaced out");
}

#[test]
fn value_keeps_later_colons() {
    let h = parse_headers("Date: Mon, 1 Jan 2024 10:20:30 +0000\r\n");
    assert_eq!(h.get("Date").unwrap().as_str(), "Mon, 1 Jan 2024 10:20:30 +0000");
}

#[test]
fn empty_name_is_kept() {
    let h = parse_headers(": v\r\n");
    assert_eq!(h.get("").unwrap().as_str(), "v");
}

#[test]
fn bare_linefeed_lines_parse_too() {
    let h = parse_headers("A: 1\nB: 2\n");
    assert_eq!(h.get("A").unwrap().as_str(), "1");
    assert_eq!(h.get("B").unwrap().as_str(), "2");
}

#[test]
fn render_then_reparse_reconstructs_the_map() {
    let h = parse_headers("A: 1\r\nB: 2\r\nA: 3\r\n");
    let rendered = h.render();
    // re-inserting A moved it behind B: order of last occurrence
    assert_eq!(rendered.as_str(), "B: 2\r\nA: 3\r\n");
    let h2 = parse_headers(rendered.as_str());
    assert_eq!(h2.len(), h.len());
    assert_eq!(h2.get("A").unwrap().as_str(), "3");
    assert_eq!(h2.get("B").unwrap().as_str(), "2");
}

#[test]
fn render_of_empty_map_is_empty() {
    let h = HeaderMap::new();
    assert_eq!(h.render().as_str(), "");
}

#[test]
fn insert_overwrites_and_get_finds() {
    let mut h = HeaderMap::new();
    assert!(h.is_empty());
    h.insert("K".to_string(), "1".to_string());
    h.insert("L".to_string(), "2".to_string());
    h.insert("K".to_string(), "3".to_string());
    assert_eq!(h.len(), 2);
    assert_eq!(h.get("K").unwrap().as_str(), "3");
    assert_eq!(h.get("L").unwrap().as_str(), "2");
    assert!(h.get("M").is_none());
    let entries = h.entries();
    assert_eq!(entries.len(), 2);
    assert_eq!(entries[0].0.as_str(), "L");
    assert_eq!(entries[1].0.as_str(), "K");
}
