use routerify_multipart::constraints::Constraints;
use routerify_multipart::error::Error;
use routerify_multipart::headers::{find_header, parse_part_headers};
use routerify_multipart::matcher::{bytes_eq, find};

#[test]
fn find_gives_the_first_match_from_a_position() {
    assert_eq!(find(b"abcabc", b"bc", 0), Some(1));
    assert_eq!(find(b"abcabc", b"bc", 2), Some(4));
    assert_eq!(find(b"abcabc", b"bd", 0), None);
    assert_eq!(find(b"ab", b"abc", 0), None);
    assert_eq!(find(b"\r\n--b\r\n", b"\r\n--b", 0), Some(0));
}

#[test]
fn bytes_eq_compares_contents() {
    assert!(bytes_eq(b"abc", b"abc"));
    assert!(!bytes_eq(b"abc", b"abd"));
    assert!(!bytes_eq(b"abc", b"ab"));
}

#[test]
fn header_names_match_in_any_case() {
    let block = b"X-Other: 1\r\nCONTENT-TYPE:   image/png\r\n";
    assert_eq!(find_header(block, b"content-type"), Some(b"image/png".to_vec()));
    assert_eq!(find_header(block, b"content-disposition"), None);
}

#[test]
fn part_headers_are_read() {
    let block = b"Content-Disposition: form-data; name=\"f\"; filename=\"a b.txt\"\r\nContent-Type: text/plain\r\n";
    let h = parse_part_headers(block).unwrap();
    assert_eq!(h.name, b"f".to_vec());
    assert_eq!(h.file_name, Some(b"a b.txt".to_vec()));
    assert_eq!(h.content_type, Some(b"text/plain".to_vec()));
    let plain = parse_part_headers(b"content-disposition: form-data; name=\"x\"\r\n").unwrap();
    assert_eq!(plain.name, b"x".to_vec());
    assert_eq!(plain.file_name, None);
    assert_eq!(plain.content_type, None);
}

#[test]
fn unclosed_quote_is_malformed() {
    let r = parse_part_headers(b"Content-Disposition: form-data; name=\"f\r\n");
    assert_eq!(r.unwrap_err(), Error::MalformedPartHeader);
    assert_eq!(parse_part_headers(b"").unwrap_err(), Error::MalformedPartHeader);
}

#[test]
fn allowed_fields_are_checked_by_name() {
    let c = Constraints::new().allowed_fields(vec![b"a".to_vec(), b"b".to_vec()]);
    assert!(c.is_field_allowed(b"b"));
    assert!(!c.is_field_allowed(b"c"));
    assert!(Constraints::new().is_field_allowed(b"anything"));
}

#[test]
fn error_messages_are_distinct() {
    assert_ne!(Error::TruncatedStream.message(), Error::MalformedPartHeader.message());
    assert_eq!(Error::MissingOrInvalidContentType.message(), "Content-Type is not multipart/form-data");
}

#[test]
fn quoted_strings_are_unescaped() {
    let block = b"Content-Disposition: form-data; name=\"q\"; filename=\"a\\\"b\\\\c.txt\"\r\n";
    let h = parse_part_headers(block).unwrap();
    assert_eq!(h.name, b"q".to_vec());
    assert_eq!(h.file_name, Some(b"a\"b\\c.txt".to_vec()));
    let open_escape = b"Content-Disposition: form-data; name=\"q\\";
    assert_eq!(parse_part_headers(open_escape).unwrap_err(), Error::MalformedPartHeader);
}
