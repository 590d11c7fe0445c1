use routerify_multipart::constraints::{Constraints, SizeLimit};
use routerify_multipart::error::Error;
use routerify_multipart::multipart::{Multipart, NextChunk, NextField};

#[derive(Debug, Clone, PartialEq)]
struct Part {
    name: Vec<u8>,
    file_name: Option<Vec<u8>>,
    content_type: Option<Vec<u8>>,
    data: Vec<u8>,
}

fn feed_next(m: &mut Multipart, rest: &mut &[u8], chunk: usize) {
    if rest.is_empty() {
        m.end_input();
    } else {
        let k = chunk.min(rest.len());
        m.feed(&rest[..k]);
        *rest = &rest[k..];
    }
}

fn run_with(body: &[u8], c: Constraints, chunk: usize) -> (Vec<Part>, Option<Error>) {
    let mut m = Multipart::with_constraints("XyZ", c).unwrap();
    let mut rest = body;
    let mut parts = Vec::new();
    loop {
        match m.next_field() {
            NextField::NeedInput => feed_next(&mut m, &mut rest, chunk),
            NextField::End => return (parts, None),
            NextField::Error(e) => return (parts, Some(e)),
            NextField::Field(h) => {
                let mut data = Vec::new();
                loop {
                    match m.next_chunk() {
                        NextChunk::Chunk(c) => data.extend_from_slice(&c),
                        NextChunk::EndOfField => break,
                        NextChunk::NeedInput => feed_next(&mut m, &mut rest, chunk),
                        NextChunk::Error(e) => {
                            parts.push(Part {
                                name: h.name,
                                file_name: h.file_name,
                                content_type: h.content_type,
                                data,
                            });
                            return (parts, Some(e));
                        }
                    }
                }
                parts.push(Part { name: h.name, file_name: h.file_name, content_type: h.content_type, data });
            }
        }
    }
}

fn run(body: &[u8], chunk: usize) -> (Vec<Part>, Option<Error>) {
    run_with(body, Constraints::new(), chunk)
}

fn text_part(name: &str, value: &str) -> String {
    format!("--XyZ\r\nContent-Disposition: form-data; name=\"{}\"\r\n\r\n{}\r\n", name, value)
}

fn two_fields_body() -> Vec<u8> {
    let mut s = text_part("my_text_field", "hello");
    s.push_str("--XyZ\r\nContent-Disposition: form-data; name=\"my_file_field\"; filename=\"a.txt\"\r\nContent-Type: text/plain\r\n\r\nhello world\r\n--XyZ--\r\n");
    s.into_bytes()
}

#[test]
fn two_fields_without_constraints() {
    let (parts, err) = run(&two_fields_body(), 1024);
    assert_eq!(err, None);
    assert_eq!(parts.len(), 2);
    assert_eq!(parts[0].name, b"my_text_field".to_vec());
    assert_eq!(parts[0].file_name, None);
    assert_eq!(parts[0].data, b"hello".to_vec());
    assert_eq!(parts[1].name, b"my_file_field".to_vec());
    assert_eq!(parts[1].file_name, Some(b"a.txt".to_vec()));
    assert_eq!(parts[1].content_type, Some(b"text/plain".to_vec()));
    assert_eq!(parts[1].data, b"hello world".to_vec());
}

#[test]
fn fields_in_order_then_end_repeatedly() {
    let mut s = String::from("preamble to ignore\r\n");
    for i in 0..5 {
        s.push_str(&text_part(&format!("f{}", i), &format!("value {}", i)));
    }
    s.push_str("--XyZ--\r\nepilogue");
    let mut m = Multipart::new("XyZ").unwrap();
    m.feed(s.as_bytes());
    m.end_input();
    for i in 0..5 {
        match m.next_field() {
            NextField::Field(h) => assert_eq!(h.name, format!("f{}", i).into_bytes()),
            other => panic!("expected a field, got {:?}", other),
        }
    }
    for _ in 0..3 {
        assert!(matches!(m.next_field(), NextField::End));
        assert!(m.is_finished());
    }
}

#[test]
fn chunk_size_does_not_change_the_result() {
    let body = two_fields_body();
    let whole = run(&body, body.len());
    for chunk in 1..=body.len() {
        assert_eq!(run(&body, chunk), whole, "chunk size {}", chunk);
    }
}

#[test]
fn disallowed_field_fails_before_its_body() {
    let mut s = text_part("my_text_field", "hello");
    s.push_str(&text_part("other", "secret"));
    s.push_str("--XyZ--\r\n");
    let c = Constraints::new().allowed_fields(vec![b"my_text_field".to_vec()]);
    let (parts, err) = run_with(s.as_bytes(), c, 7);
    assert_eq!(err, Some(Error::DisallowedFieldName));
    assert_eq!(parts.len(), 1);
    assert_eq!(parts[0].data, b"hello".to_vec());
}

#[test]
fn per_field_limit_is_exact() {
    let c = || Constraints::new().size_limit(SizeLimit::new().per_field(10));
    let ok = format!("{}--XyZ--\r\n", text_part("a", "0123456789"));
    let (parts, err) = run_with(ok.as_bytes(), c(), 3);
    assert_eq!(err, None);
    assert_eq!(parts[0].data, b"0123456789".to_vec());
    let too_long = format!("{}--XyZ--\r\n", text_part("a", "0123456789A"));
    let (_, err) = run_with(too_long.as_bytes(), c(), 3);
    assert_eq!(err, Some(Error::PerFieldLimitExceeded));
}

#[test]
fn field_override_wins_over_default() {
    let limits = SizeLimit::new().per_field(3).for_field(b"big".to_vec(), 100);
    let c = Constraints::new().size_limit(limits.clone());
    assert_eq!(limits.limit_of(b"big"), Some(100));
    assert_eq!(limits.limit_of(b"small"), Some(3));
    let s = format!("{}{}--XyZ--\r\n", text_part("big", "a long value"), text_part("small", "abcd"));
    let (parts, err) = run_with(s.as_bytes(), c, 64);
    assert_eq!(parts[0].data, b"a long value".to_vec());
    assert_eq!(err, Some(Error::PerFieldLimitExceeded));
}

#[test]
fn whole_stream_limit_across_fields() {
    let c = Constraints::new().size_limit(SizeLimit::new().whole_stream(20));
    let s = format!(
        "{}{}--XyZ--\r\n",
        text_part("a", "fifteen bytes!!"),
        text_part("b", "fifteen bytes??")
    );
    let (parts, err) = run_with(s.as_bytes(), c, 1024);
    assert_eq!(err, Some(Error::WholeStreamLimitExceeded));
    assert_eq!(parts[0].data, b"fifteen bytes!!".to_vec());
    assert_eq!(parts.len(), 2);
    assert!(parts[1].data.len() <= 5);
}

#[test]
fn missing_terminal_boundary_is_truncation() {
    let s = text_part("a", "value");
    let (_, err) = run(s.as_bytes(), 4);
    assert_eq!(err, Some(Error::TruncatedStream));
    let cut = "--XyZ\r\nContent-Disposition: form-data; name=\"a\"\r\n\r\nval";
    let (parts, err) = run(cut.as_bytes(), 100);
    assert_eq!(err, Some(Error::TruncatedStream));
    assert_eq!(parts.len(), 1);
}

#[test]
fn memory_stays_bounded_on_a_large_field() {
    let chunk = 4096;
    let mut m = Multipart::new("XyZ").unwrap();
    m.feed(b"--XyZ\r\nContent-Disposition: form-data; name=\"big\"\r\n\r\n");
    loop {
        match m.next_field() {
            NextField::Field(_) => break,
            NextField::NeedInput => panic!("headers are all there"),
            other => panic!("unexpected {:?}", other),
        }
    }
    let block = vec![b'x'; chunk];
    let mut total = 0usize;
    for _ in 0..4096 {
        m.feed(&block);
        assert!(m.buffered_len() <= chunk + 8);
        loop {
            match m.next_chunk() {
                NextChunk::Chunk(c) => total += c.len(),
                NextChunk::NeedInput => break,
                other => panic!("unexpected {:?}", other),
            }
        }
        assert!(m.buffered_len() < 8);
    }
    assert!(total > 4096 * chunk - 8);
}

#[test]
fn header_without_name_is_malformed() {
    let s = "--XyZ\r\nContent-Disposition: form-data\r\n\r\nx\r\n--XyZ--\r\n";
    let (_, err) = run(s.as_bytes(), 5);
    assert_eq!(err, Some(Error::MalformedPartHeader));
}

#[test]
fn oversized_header_is_malformed() {
    let mut s = String::from("--XyZ\r\nX-Long: ");
    s.push_str(&"y".repeat(10000));
    let (_, err) = run(s.as_bytes(), 512);
    assert_eq!(err, Some(Error::MalformedPartHeader));
}

#[test]
fn upstream_failure_is_reported_and_kept() {
    let mut m = Multipart::new("XyZ").unwrap();
    m.feed(b"--XyZ\r\nContent-Disp");
    assert!(matches!(m.next_field(), NextField::NeedInput));
    m.fail_input();
    assert!(matches!(m.next_field(), NextField::Error(Error::UpstreamIoError)));
    assert!(matches!(m.next_chunk(), NextChunk::Error(Error::UpstreamIoError)));
}

#[test]
fn content_type_gives_the_boundary() {
    let mut m = Multipart::from_content_type("multipart/form-data; boundary=XyZ", Constraints::new()).unwrap();
    m.feed(&two_fields_body());
    m.end_input();
    match m.next_field() {
        NextField::Field(h) => assert_eq!(h.name, b"my_text_field".to_vec()),
        other => panic!("unexpected {:?}", other),
    }
    // A parser built on another boundary finds no part in the same body.
    let mut other = Multipart::from_content_type("multipart/form-data; boundary=Other", Constraints::new()).unwrap();
    other.feed(&two_fields_body());
    other.end_input();
    assert!(matches!(other.next_field(), NextField::Error(Error::TruncatedStream)));
}

#[test]
fn content_type_that_is_not_multipart_is_refused() {
    assert!(matches!(
        Multipart::from_content_type("text/plain", Constraints::new()),
        Err(Error::MissingOrInvalidContentType)
    ));
    assert!(matches!(
        Multipart::from_content_type("multipart/form-data", Constraints::new()),
        Err(Error::MissingOrInvalidContentType)
    ));
    assert!(matches!(Multipart::new(""), Err(Error::MissingOrInvalidContentType)));
}

#[test]
fn abandoned_field_is_skipped() {
    let s = format!("{}{}--XyZ--\r\n", text_part("a", "skip me entirely"), text_part("b", "kept"));
    let mut m = Multipart::new("XyZ").unwrap();
    m.feed(s.as_bytes());
    m.end_input();
    assert!(matches!(m.next_field(), NextField::Field(_)));
    match m.next_field() {
        NextField::Field(h) => assert_eq!(h.name, b"b".to_vec()),
        other => panic!("unexpected {:?}", other),
    }
    match m.next_chunk() {
        NextChunk::Chunk(c) => assert_eq!(c, b"kept".to_vec()),
        other => panic!("unexpected {:?}", other),
    }
    assert!(matches!(m.next_chunk(), NextChunk::EndOfField));
    assert!(matches!(m.next_field(), NextField::End));
}

#[test]
fn header_block_at_the_bound_does_not_depend_on_chunking() {
    let line = "Content-Disposition: form-data; name=\"a\"\r\nX-Pad: ";
    let pad = 8190 - line.len();
    let mut s = String::from("--XyZ\r\n");
    s.push_str(line);
    s.push_str(&"p".repeat(pad));
    s.push_str("\r\n\r\nvalue\r\n--XyZ--\r\n");
    let body = s.into_bytes();
    let whole = run(&body, body.len());
    assert_eq!(whole.1, None);
    assert_eq!(whole.0[0].data, b"value".to_vec());
    assert_eq!(run(&body, 1), whole);
    let mut longer = String::from("--XyZ\r\n");
    longer.push_str(line);
    longer.push_str(&"p".repeat(pad + 1));
    longer.push_str("\r\n\r\nvalue\r\n--XyZ--\r\n");
    let body = longer.into_bytes();
    assert_eq!(run(&body, body.len()).1, Some(Error::MalformedPartHeader));
    assert_eq!(run(&body, 1).1, Some(Error::MalformedPartHeader));
}
