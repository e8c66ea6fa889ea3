use sip_message::message::{FirstLine, ParseError, ParsedMessage, Span};
use sip_message::parser::parse;

fn text(m: &ParsedMessage<'_>, sp: Span) -> String {
    String::from_utf8(m.slice(sp).to_vec()).unwrap()
}

fn headers(m: &ParsedMessage<'_>) -> Vec<(String, String)> {
    (0..m.header_count())
        .map(|i| {
            let (n, v) = m.header(i);
            (String::from_utf8(n.to_vec()).unwrap(), String::from_utf8(v.to_vec()).unwrap())
        })
        .collect()
}

#[test]
fn invite_with_header_and_body() {
    let buf = b"INVITE sip:bob@biloxi.com SIP/2.0\r\nFrom: alice\r\n\r\nhello";
    let m = parse(buf).unwrap();
    assert_eq!(m.method().unwrap(), b"INVITE");
    assert_eq!(m.uri().unwrap(), b"sip:bob@biloxi.com");
    assert_eq!(m.version(), b"SIP/2.0");
    assert!(m.first_line.is_request());
    assert_eq!(headers(&m), vec![("From".to_string(), "alice".to_string())]);
    assert_eq!(m.body_bytes().unwrap(), b"hello");
    assert_eq!(m.raw, &buf[..]);
}

#[test]
fn reply_not_found_with_empty_body() {
    let m = parse(b"SIP/2.0 404 Not Found\r\n\r\n").unwrap();
    assert!(!m.first_line.is_request());
    assert_eq!(m.version(), b"SIP/2.0");
    assert_eq!(m.status().unwrap(), b"404");
    assert_eq!(m.reason().unwrap(), b"Not Found");
    assert!(m.method().is_none());
    assert_eq!(m.header_count(), 0);
    assert_eq!(m.body_bytes().unwrap(), b"");
}

#[test]
fn bad_first_line_is_invalid_at_zero() {
    let r = parse(b"BadLineNoSlash\r\n\r\n");
    match r {
        Err(ParseError::InvalidFirstLine { offset, raw_snippet }) => {
            assert_eq!(offset, 0);
            assert_eq!(raw_snippet, Span { start: 0, end: 14 });
        }
        _ => panic!("expected InvalidFirstLine"),
    }
}

#[test]
fn request_spans_match_token_positions() {
    let m = parse(b"OPTIONS sip:a@b SIP/2.0\r\n").unwrap();
    assert_eq!(
        m.first_line,
        FirstLine::Request {
            method: Span { start: 0, end: 7 },
            uri: Span { start: 8, end: 15 },
            version: Span { start: 16, end: 23 },
        }
    );
}

#[test]
fn reply_ok_status_and_reason() {
    let m = parse(b"SIP/2.0 200 OK\r\n\r\n").unwrap();
    assert_eq!(text(&m, Span { start: 8, end: 11 }), "200");
    assert_eq!(m.status().unwrap(), b"200");
    assert_eq!(m.reason().unwrap(), b"OK");
}

#[test]
fn request_round_trip() {
    let line = b"REGISTER sip:registrar.example.com SIP/2.0";
    let mut buf = line.to_vec();
    buf.extend_from_slice(b"\r\n\r\n");
    let m = parse(&buf).unwrap();
    let mut joined = m.method().unwrap().to_vec();
    joined.push(b' ');
    joined.extend_from_slice(m.uri().unwrap());
    joined.push(b' ');
    joined.extend_from_slice(m.version());
    assert_eq!(joined, line.to_vec());
}

#[test]
fn reply_round_trip() {
    let line = b"SIP/2.0 486 Busy Here";
    let mut buf = line.to_vec();
    buf.extend_from_slice(b"\r\n");
    let m = parse(&buf).unwrap();
    let mut joined = m.version().to_vec();
    joined.push(b' ');
    joined.extend_from_slice(m.status().unwrap());
    joined.push(b' ');
    joined.extend_from_slice(m.reason().unwrap());
    assert_eq!(joined, line.to_vec());
}

#[test]
fn duplicate_headers_kept_in_order() {
    let m = parse(b"BYE sip:x SIP/2.0\r\nVia: a\r\nTo: t\r\nVia: b\r\n\r\n").unwrap();
    assert_eq!(
        headers(&m),
        vec![
            ("Via".to_string(), "a".to_string()),
            ("To".to_string(), "t".to_string()),
            ("Via".to_string(), "b".to_string()),
        ]
    );
    assert_eq!(m.headers[0].name.start, 19);
}

#[test]
fn parsing_twice_gives_equal_results() {
    let buf = b"ACK sip:y SIP/2.0\r\nCSeq: 1 ACK\r\n\r\nxyz";
    let a = parse(buf).unwrap();
    let b = parse(buf).unwrap();
    assert_eq!(a.first_line, b.first_line);
    assert_eq!(a.headers, b.headers);
    assert_eq!(a.body, b.body);
    assert_eq!(parse(b"nope\r\n").err(), parse(b"nope\r\n").err());
}

#[test]
fn empty_buffer_is_empty() {
    assert_eq!(parse(b"").err(), Some(ParseError::Empty));
}

#[test]
fn first_line_only_has_no_body() {
    let m = parse(b"INVITE sip:a SIP/2.0\r\n").unwrap();
    assert_eq!(m.header_count(), 0);
    assert!(m.body.is_none());
    assert!(m.body_bytes().is_none());
}

#[test]
fn headers_without_separator_have_no_body() {
    let m = parse(b"INVITE sip:a SIP/2.0\r\nA: 1\r\n").unwrap();
    assert_eq!(m.header_count(), 1);
    assert!(m.body.is_none());
}

#[test]
fn ending_at_separator_gives_empty_body() {
    let buf = b"INVITE sip:a SIP/2.0\r\nA: 1\r\n\r\n";
    let m = parse(buf).unwrap();
    assert_eq!(m.body, Some(Span { start: buf.len(), end: buf.len() }));
}

#[test]
fn unterminated_first_line_is_truncated() {
    assert_eq!(parse(b"SIP/2.0 200 OK").err(), Some(ParseError::Truncated { offset: 0 }));
}

#[test]
fn unterminated_header_is_truncated() {
    assert_eq!(
        parse(b"SIP/2.0 200 OK\r\nFrom: a").err(),
        Some(ParseError::Truncated { offset: 16 })
    );
}

#[test]
fn header_without_colon_is_malformed() {
    assert_eq!(
        parse(b"SIP/2.0 200 OK\r\nFrom: a\r\nbroken\r\n\r\n").err(),
        Some(ParseError::MalformedHeader { line_offset: 25 })
    );
}

#[test]
fn bare_lf_lines_are_accepted() {
    let m = parse(b"MESSAGE sip:z SIP/2.0\nX:   v\n\nbody").unwrap();
    assert_eq!(m.method().unwrap(), b"MESSAGE");
    assert_eq!(headers(&m), vec![("X".to_string(), "v".to_string())]);
    assert_eq!(m.body_bytes().unwrap(), b"body");
}

#[test]
fn header_value_keeps_later_colons() {
    let m = parse(b"INVITE sip:a SIP/2.0\r\nContact: <sip:c@d:5060>\r\n\r\n").unwrap();
    assert_eq!(
        headers(&m),
        vec![("Contact".to_string(), "<sip:c@d:5060>".to_string())]
    );
}

#[test]
fn four_token_request_is_invalid() {
    assert!(matches!(
        parse(b"INVITE sip:a extra SIP/2.0\r\n"),
        Err(ParseError::InvalidFirstLine { offset: 0, .. })
    ));
}

#[test]
fn request_without_sip_version_is_invalid() {
    assert!(matches!(
        parse(b"INVITE sip:a HTTP/1.1\r\n"),
        Err(ParseError::InvalidFirstLine { offset: 0, .. })
    ));
}

#[test]
fn reply_without_reason_has_empty_reason() {
    let m = parse(b"SIP/2.0 100\r\n").unwrap();
    assert_eq!(m.status().unwrap(), b"100");
    assert_eq!(m.reason().unwrap(), b"");
}

#[test]
fn reply_with_version_only_is_invalid() {
    assert!(matches!(
        parse(b"SIP/2.0\r\n"),
        Err(ParseError::InvalidFirstLine { offset: 0, .. })
    ));
}

#[test]
fn whitespace_around_tokens_is_left_out() {
    let m = parse(b"  INFO \t sip:q   SIP/2.0 \r\n").unwrap();
    assert_eq!(m.method().unwrap(), b"INFO");
    assert_eq!(m.uri().unwrap(), b"sip:q");
    assert_eq!(m.version(), b"SIP/2.0");
}

#[test]
fn span_len_and_emptiness() {
    let sp = Span { start: 3, end: 8 };
    assert_eq!(sp.len(), 5);
    assert!(!sp.is_empty());
    assert!(Span { start: 4, end: 4 }.is_empty());
}
