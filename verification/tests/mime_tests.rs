use eml::mime::{attachment_filenames, decode_message, param_value, Disposition, MimeError, PartInfo};

fn part(disposition: Disposition, params: Vec<(&str, &str)>) -> PartInfo {
    PartInfo {
        disposition,
        params: params.into_iter().map(|(k, v)| (k.to_string(), v.to_string())).collect(),
    }
}

#[test]
fn selects_attachments_that_carry_a_filename() {
    let parts = vec![
        part(Disposition::Inline, vec![("filename", "ignored.txt")]),
        part(Disposition::Attachment, vec![("filename", "a.txt")]),
        part(Disposition::Attachment, vec![("size", "12")]),
        part(Disposition::FormData, vec![("filename", "also-ignored")]),
        part(Disposition::Attachment, vec![("size", "3"), ("filename", "b.bin")]),
    ];
    let names = attachment_filenames(&parts);
    assert_eq!(names.len(), 2);
    assert_eq!(names[0].as_str(), "a.txt");
    assert_eq!(names[1].as_str(), "b.bin");
}

#[test]
fn no_parts_yield_no_attachment_names() {
    let parts: Vec<PartInfo> = Vec::new();
    assert!(attachment_filenames(&parts).is_empty());
}

#[test]
fn param_lookup_takes_the_first_occurrence() {
    let p = part(Disposition::Attachment, vec![("k", "1"), ("k", "2")]);
    assert_eq!(param_value(&p.params, "k").unwrap().as_str(), "1");
    assert!(param_value(&p.params, "missing").is_none());
}

#[test]
fn malformed_structure_yields_parse_error() {
    // a message whose first header line starts with a space cannot be parsed
    let raw = b" overhanging line\r\n\r\nbody";
    assert!(matches!(decode_message(raw), Err(MimeError::Parse)));
}

#[test]
fn undecodable_body_yields_decode_error() {
    let raw = b"Content-Transfer-Encoding: base64\r\n\r\n!!!";
    assert!(matches!(decode_message(raw), Err(MimeError::Decode)));
}

#[test]
fn decodes_a_plain_message_body() {
    let raw = b"Subject: test\r\n\r\nThis is the body";
    let decoded = decode_message(raw).unwrap();
    assert_eq!(decoded.body_text.as_str(), "This is the body");
    assert!(decoded.parts.is_empty());
}

#[test]
fn decodes_multipart_attachment_names() {
    let raw = "Subject: test\r\nMIME-Version: 1.0\r\nContent-Type: multipart/mixed; boundary=\"XBOUNDARY\"\r\n\r\n--XBOUNDARY\r\nContent-Type: text/plain\r\n\r\nhello there\r\n--XBOUNDARY\r\nContent-Type: application/octet-stream\r\nContent-Disposition: attachment; filename=\"a.txt\"\r\n\r\ndata\r\n--XBOUNDARY--\r\n"
        .as_bytes();
    let decoded = decode_message(raw).unwrap();
    assert_eq!(decoded.parts.len(), 2);
    let names = attachment_filenames(&decoded.parts);
    assert_eq!(names.len(), 1);
    assert_eq!(names[0].as_str(), "a.txt");
}

#[test]
fn inline_part_with_filename_is_not_an_attachment() {
    let raw = "Content-Type: multipart/mixed; boundary=\"B\"\r\n\r\n--B\r\nContent-Disposition: inline; filename=\"shown.txt\"\r\n\r\nx\r\n--B--\r\n"
        .as_bytes();
    let decoded = decode_message(raw).unwrap();
    let names = attachment_filenames(&decoded.parts);
    assert!(names.is_empty());
}
