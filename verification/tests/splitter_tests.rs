use eml::message::parse_eml_structure;
use eml::splitter::{find_boundary, split_message, split_text, LineEnding};

#[test]
fn splits_at_first_crlf_crlf() {
    let raw = b"A: 1\r\nB: 2\r\n\r\nbody bytes";
    let (header, body) = split_message(raw, LineEnding::CrLf);
    assert_eq!(header.as_slice(), b"A: 1\r\nB: 2");
    assert_eq!(body.as_slice(), b"body bytes");
}

#[test]
fn splits_at_first_lf_lf() {
    let raw = b"A: 1\nB: 2\n\nbody";
    let (header, body) = split_message(raw, LineEnding::Lf);
    assert_eq!(header.as_slice(), b"A: 1\nB: 2");
    assert_eq!(body.as_slice(), b"body");
}

#[test]
fn no_boundary_routes_everything_to_body() {
    let raw = b"just one line of text";
    let (header, body) = split_message(raw, LineEnding::CrLf);
    assert_eq!(header.as_slice(), b"");
    assert_eq!(body.as_slice(), b"just one line of text");
}

#[test]
fn empty_input_splits_to_empty_parts() {
    let (header, body) = split_message(b"", LineEnding::CrLf);
    assert!(header.is_empty());
    assert!(body.is_empty());
}

#[test]
fn resplit_body_finds_only_a_genuine_later_boundary() {
    let raw = b"h\r\n\r\nbody\r\n\r\ntail";
    let (_, body) = split_message(raw, LineEnding::CrLf);
    assert_eq!(body.as_slice(), b"body\r\n\r\ntail");
    let (h2, b2) = split_message(body.as_slice(), LineEnding::CrLf);
    assert_eq!(h2.as_slice(), b"body");
    assert_eq!(b2.as_slice(), b"tail");
}

#[test]
fn resplit_body_without_second_boundary_finds_none() {
    let raw = b"h\r\n\r\nbody only";
    let (_, body) = split_message(raw, LineEnding::CrLf);
    assert_eq!(body.as_slice(), b"body only");
    assert!(find_boundary(body.as_slice(), LineEnding::CrLf).is_none());
    let (h2, b2) = split_message(body.as_slice(), LineEnding::CrLf);
    assert!(h2.is_empty());
    assert_eq!(b2.as_slice(), b"body only");
}

#[test]
fn boundary_offset_is_the_first_occurrence() {
    assert_eq!(find_boundary(b"ab\r\n\r\ncd\r\n\r\n", LineEnding::CrLf), Some(2));
    assert_eq!(find_boundary(b"ab", LineEnding::CrLf), None);
    assert_eq!(find_boundary(b"\n\nrest", LineEnding::Lf), Some(0));
}

#[test]
fn split_text_at_blank_line() {
    let r = split_text("A: 1\nB: 2\n\nbody text", LineEnding::Lf);
    let (header, body) = r.unwrap();
    assert_eq!(header.as_str(), "A: 1\nB: 2");
    assert_eq!(body.as_str(), "body text");
}

#[test]
fn split_text_without_boundary_yields_none() {
    assert!(split_text("no blank line here", LineEnding::Lf).is_none());
}

#[test]
fn eml_structure_parses_headers_and_keeps_body_bytes() {
    let raw = b"Subject: test\r\nFrom: a@example.com\r\n\r\nHello body";
    let (headers, body) = parse_eml_structure(raw);
    assert_eq!(headers.get("Subject").unwrap().as_str(), "test");
    assert_eq!(headers.get("From").unwrap().as_str(), "a@example.com");
    assert_eq!(body.as_slice(), b"Hello body");
}

#[test]
fn eml_structure_without_boundary_yields_empty_map_and_whole_body() {
    let raw = b"just one line of text";
    let (headers, body) = parse_eml_structure(raw);
    assert!(headers.is_empty());
    assert_eq!(body.as_slice(), b"just one line of text");
}

#[test]
fn eml_structure_keeps_binary_body_unmodified() {
    let raw = b"A: 1\r\n\r\n\xff\xfe\x00bin";
    let (headers, body) = parse_eml_structure(raw);
    assert_eq!(headers.get("A").unwrap().as_str(), "1");
    assert_eq!(body.as_slice(), b"\xff\xfe\x00bin");
}

#[test]
fn eml_structure_decodes_header_text_leniently() {
    // an invalid byte inside the header block is replaced, not fatal
    let raw = b"A: 1\r\nX-\xff: 2\r\n\r\nbody";
    let (headers, body) = parse_eml_structure(raw);
    assert_eq!(headers.get("A").unwrap().as_str(), "1");
    assert_eq!(body.as_slice(), b"body");
}
