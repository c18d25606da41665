use sbx_server::http::{
    as_head, bool_param, drain_body, is_token_byte, number_param, parse_head, read_body, read_request,
    stream_body, unescape, urldecode, BodyError, Drain, HeadError, HeadReader, HeadStep, IoKind, ReadError,
    ReadEvent, Request, MAX_DRAIN_BYTES, MAX_HEADERS, MAX_HEADER_BYTES,
};
use sbx_server::strmap::StrMap;

fn parse(head: &str) -> Result<Request, HeadError> {
    parse_head(head.as_bytes())
}

fn head(extra: &str) -> String {
    format!("GET /v1/sandboxes HTTP/1.1\r\nHost: x\r\n{extra}\r\n\r\n")
}

fn refused(head: &str) -> HeadError {
    match parse(head) {
        Ok(_) => panic!("accepted {head:?}"),
        Err(e) => e,
    }
}

#[test]
fn a_well_formed_request_parses() {
    let request = parse(&head("X-Sandbox-Token: abc\r\nContent-Length: 3")).unwrap();
    assert_eq!(request.method, "GET");
    assert_eq!(request.path, "/v1/sandboxes");
    assert_eq!(request.content_length, 3);
    assert_eq!(request.header("x-sandbox-token"), Some("abc"));
    assert!(request.keep_alive);
}

#[test]
fn ambiguous_framing_is_refused() {
    let cases = [
        ("Content-Length: abc", "non-numeric length"),
        ("Content-Length: ", "empty length"),
        ("Content-Length: -1", "negative length"),
        ("Content-Length: +1", "signed length"),
        ("Content-Length: 0x10", "hex length"),
        ("Content-Length: 1, 1", "list length"),
        ("Content-Length: 5\r\nContent-Length: 6", "conflicting duplicates"),
        ("Content-Length: 5\r\nTransfer-Encoding: chunked", "both framing headers"),
        ("Content-Length : 5", "space before the colon"),
        ("Content-Length\t: 5", "tab before the colon"),
        ("Content-Length", "no colon"),
        (" Content-Length: 5", "folded continuation"),
        ("Content-Le\u{0000}ngth: 5", "illegal name character"),
    ];
    for (extra, what) in cases {
        assert!(parse(&head(extra)).is_err(), "accepted {what}: {extra:?}");
    }
}

#[test]
fn identical_duplicates_are_allowed() {
    // Harmless, and rejecting them would be stricter than any client expects.
    let request = parse(&head("Content-Length: 5\r\nContent-Length: 5")).unwrap();
    assert_eq!(request.content_length, 5);
}

#[test]
fn a_malformed_request_line_is_refused() {
    for line in [
        "GET /x",                // no version
        "GET  /x HTTP/1.1",      // double space
        "GET /x HTTP/1.1 extra", // trailing junk
        "GET /x HTTP/2.0",       // unsupported version
        "GET /x ICY/1.0",        // not HTTP
        "G3T /x HTTP/1.1",       // non-alphabetic method
        " GET /x HTTP/1.1",      // leading space
        "/x HTTP/1.1",           // no method
    ] {
        assert!(parse(&format!("{line}\r\nHost: x\r\n\r\n")).is_err(), "accepted request line {line:?}");
    }
}

#[test]
fn a_non_ascii_head_is_refused() {
    assert!(parse_head("GET /x HTTP/1.1\r\nX-Tag: caf\u{00e9}\r\n\r\n".as_bytes()).is_err());
}

#[test]
fn too_many_headers_is_refused() {
    let many: String = (0..MAX_HEADERS + 1).map(|i| format!("X-H{i}: v\r\n")).collect();
    assert!(parse(&format!("GET /x HTTP/1.1\r\n{many}\r\n")).is_err());
}

#[test]
fn keep_alive_follows_the_version_and_the_connection_header() {
    assert!(parse("GET /x HTTP/1.1\r\nHost: x\r\n\r\n").unwrap().keep_alive);
    assert!(!parse("GET /x HTTP/1.0\r\nHost: x\r\n\r\n").unwrap().keep_alive);
    assert!(!parse("GET /x HTTP/1.1\r\nConnection: close\r\n\r\n").unwrap().keep_alive);
    assert!(parse("GET /x HTTP/1.0\r\nConnection: keep-alive\r\n\r\n").unwrap().keep_alive);
}

#[test]
fn the_method_is_normalized_but_the_target_is_not() {
    let request = parse("get /V1/Files/Read?path=/A HTTP/1.1\r\nHost: x\r\n\r\n").unwrap();
    assert_eq!(request.method, "GET");
    assert_eq!(request.path, "/V1/Files/Read");
    assert_eq!(request.params.get("path").map(String::as_str), Some("/A"));
}

#[test]
fn every_refusal_of_a_head_has_its_reason() {
    let many: String = (0..MAX_HEADERS + 1).map(|i| format!("X-H{i}: v\r\n")).collect();
    let cases = [
        ("GET /x HTTP/1.1\r\nX: \u{e9}\r\n\r\n".to_string(), HeadError::NonAscii),
        ("GET /x\r\n\r\n".to_string(), HeadError::RequestLine),
        ("G3T /x HTTP/1.1\r\n\r\n".to_string(), HeadError::Method),
        ("GET /x HTTP/2.0\r\n\r\n".to_string(), HeadError::Version),
        (format!("GET /x HTTP/1.1\r\n{many}\r\n"), HeadError::TooManyHeaders),
        (head(" folded: 1"), HeadError::Folding),
        (head("nocolon"), HeadError::NoColon),
        (head(": empty"), HeadError::HeaderName),
        (head("a b: 1"), HeadError::HeaderNameCharacter),
        (head("host: y"), HeadError::ConflictingHeader),
        (head("Content-Length: 1\r\nTransfer-Encoding: chunked"), HeadError::BothFramings),
        (head("Content-Length: x"), HeadError::MalformedLength),
        (head("Content-Length: 18446744073709551616"), HeadError::LengthOutOfRange),
    ];
    for (text, want) in cases {
        assert_eq!(refused(&text), want, "{text:?}");
    }
    assert_eq!(HeadError::MalformedLength.message(), "malformed Content-Length");
    let whole = parse(&head("Content-Length: 18446744073709551615")).unwrap();
    assert_eq!(whole.content_length, u64::MAX);
}

#[test]
fn as_many_headers_as_allowed_are_taken() {
    let many: String = (0..MAX_HEADERS).map(|i| format!("X-H{i}: v\r\n")).collect();
    let request = parse(&format!("GET /x HTTP/1.1\r\n{many}\r\n")).unwrap();
    assert_eq!(request.headers.len(), MAX_HEADERS);
    assert_eq!(request.header("X-H99"), Some("v"));
}

#[test]
fn an_accepted_head_is_sound() {
    let request = parse("put /a?b=c&d HTTP/1.1\r\nHOST:  h \r\nX-A: a\nX-B: b\r\n\r\n").unwrap();
    assert_eq!(request.method, "PUT");
    assert_eq!(request.path, "/a");
    assert_eq!(request.raw_query, "b=c&d");
    assert_eq!(request.header("host"), Some("h"));
    assert_eq!(request.header("x-a"), Some("a\nX-B: b"));
    assert_eq!(request.params.get("d").map(String::as_str), Some(""));
    assert_eq!(request.body_consumed, 0);
}

#[test]
fn a_query_is_decoded() {
    assert_eq!(urldecode("a%20b+c"), "a b c");
    assert_eq!(urldecode("%2Fx%2fy"), "/x/y");
    assert_eq!(urldecode("caf%C3%A9"), "caf\u{e9}");
    // Two characters have to follow the sign, and they have to be hexadecimal.
    assert_eq!(urldecode("%4"), "%4");
    assert_eq!(urldecode("%41"), "A");
    assert_eq!(urldecode("%41b"), "Ab");
    assert_eq!(urldecode("%zzb"), "%zzb");
    assert_eq!(urldecode("%+5x"), "\u{5}x");
    // What is no UTF-8 is replaced.
    assert_eq!(urldecode("%FFx"), "\u{fffd}x");
}

#[test]
fn a_later_parameter_replaces_an_earlier_one() {
    let request = parse("GET /x?a=1&&b=2&a=3 HTTP/1.1\r\n\r\n").unwrap();
    assert_eq!(request.params.get("a").map(String::as_str), Some("3"));
    assert_eq!(request.params.get("b").map(String::as_str), Some("2"));
    assert_eq!(request.params.len(), 2);
}

#[test]
fn parameters_say_yes_no_or_a_number() {
    let mut params = StrMap::new();
    params.insert("yes".to_string(), "1".to_string());
    params.insert("no".to_string(), "false".to_string());
    params.insert("odd".to_string(), "maybe".to_string());
    params.insert("mode".to_string(), "644".to_string());
    assert!(bool_param(&params, "yes", false));
    assert!(!bool_param(&params, "no", true));
    assert!(bool_param(&params, "odd", true));
    assert!(!bool_param(&params, "none", false));
    assert_eq!(number_param(&params, "mode", 8, u32::MAX as u64), Some(0o644));
    assert_eq!(number_param(&params, "mode", 10, 643), None);
    assert_eq!(number_param(&params, "odd", 10, 1000), None);
}

#[test]
fn header_names_hold_token_characters() {
    assert!(is_token_byte(b'a') && is_token_byte(b'9') && is_token_byte(b'~') && is_token_byte(b'!'));
    assert!(!is_token_byte(b' ') && !is_token_byte(b':') && !is_token_byte(b'/') && !is_token_byte(0));
}

#[test]
fn a_reader_stops_at_the_first_empty_line() {
    let data = b"GET / HTTP/1.1\r\n\r\nGET /next HTTP/1.1\r\n\r\n";
    let mut reader = HeadReader::new();
    let mut taken = 0;
    for b in data {
        taken += 1;
        if reader.step(ReadEvent::Byte(*b)) == HeadStep::Complete {
            break;
        }
    }
    assert_eq!(taken, 18);
    assert_eq!(as_head(data), data[..18].to_vec());
    assert_eq!(read_request(&reader).unwrap().path, "/");
}

#[test]
fn a_reader_tells_why_no_head_came() {
    let mut reader = HeadReader::new();
    assert_eq!(reader.step(ReadEvent::Eof), HeadStep::Closed);
    assert_eq!(reader.step(ReadEvent::Late), HeadStep::Failed(ReadError::TimedOut));
    assert_eq!(
        reader.step(ReadEvent::Failed(IoKind::WouldBlock)),
        HeadStep::Failed(ReadError::Io(IoKind::WouldBlock))
    );
    assert_eq!(reader.step(ReadEvent::Byte(b'G')), HeadStep::More);
    assert_eq!(reader.step(ReadEvent::Eof), HeadStep::Failed(ReadError::EofInHead));
    let mut last = HeadStep::More;
    for _ in 0..MAX_HEADER_BYTES {
        last = reader.step(ReadEvent::Byte(b'x'));
    }
    assert_eq!(last, HeadStep::Failed(ReadError::TooLarge));
    assert_eq!(ReadError::EofInHead.message(), Some("eof in request head"));
    assert_eq!(ReadError::EofInHead.kind(), IoKind::UnexpectedEof);
}

#[test]
fn bytes_are_shaped_into_a_head() {
    assert_eq!(as_head(b"abc"), b"abc\r\n\r\n".to_vec());
    assert_eq!(as_head(&vec![b'a'; MAX_HEADER_BYTES + 9]).len(), MAX_HEADER_BYTES);
    // Only what is missing of the empty line is added.
    assert_eq!(as_head(b"a\r"), b"a\r\n\r\n".to_vec());
    assert_eq!(as_head(b"a\r\n"), b"a\r\n\r\n".to_vec());
    assert_eq!(as_head(b"a\r\n\r"), b"a\r\n\r\n".to_vec());
    assert_eq!(as_head(b"\r\r\n"), b"\r\r\n\r\n".to_vec());
    assert_eq!(as_head(b""), b"\r\n\r\n".to_vec());
    let mut long = vec![b'a'; MAX_HEADER_BYTES + 9];
    assert!(as_head(&long).ends_with(b"a\r\n\r\n"));
    long[MAX_HEADER_BYTES - 5] = b'\r';
    let head = as_head(&long);
    assert_eq!(head.len(), MAX_HEADER_BYTES - 1);
    assert!(head.ends_with(b"a\r\n\r\n"));
    // An empty line that still fits ends the head.
    long[MAX_HEADER_BYTES - 4..MAX_HEADER_BYTES].copy_from_slice(b"\r\n\r\n");
    assert_eq!(as_head(&long), long[..MAX_HEADER_BYTES].to_vec());
}

#[test]
fn percent_encoding_is_undone() {
    for s in ["", "a b", "%41", "a+b&c=d", "\u{e9}\u{4e2d}\u{1f600}", "100%"] {
        let upper: String = s.bytes().map(|b| format!("%{b:02X}")).collect();
        let lower: String = s.bytes().map(|b| format!("%{b:02x}")).collect();
        assert_eq!(urldecode(&upper), s);
        assert_eq!(urldecode(&lower), s);
        assert_eq!(urldecode(&format!("{upper}+%2")), format!("{s} %2"));
        // The bytes come back also before what is not well-formed.
        let mut bytes = s.as_bytes().to_vec();
        bytes.push(0xff);
        assert_eq!(unescape(format!("{lower}%fF").as_bytes()), bytes);
    }
}

#[test]
fn a_body_is_read_as_a_whole() {
    let mut request = parse(&head("Content-Length: 5")).unwrap();
    assert!(matches!(read_body(&request, 4), Err(BodyError::TooLarge)));
    let mut body = read_body(&request, 5).unwrap_or_else(|_| panic!("refused"));
    assert_eq!(body.want(), 5);
    assert!(body.accept(b"hel").is_ok());
    assert_eq!(body.want(), 2);
    assert_eq!(body.accept(b""), Err(BodyError::Eof));
    assert!(body.accept(b"lo").is_ok());
    assert_eq!(body.want(), 0);
    assert_eq!(body.finish(&mut request), b"hello".to_vec());
    assert_eq!(request.body_consumed, 5);
    assert_eq!(drain_body(&request), Drain::Nothing);
}

#[test]
fn a_body_is_streamed_or_drained() {
    let mut request = parse(&head("Content-Length: 70000")).unwrap();
    assert_eq!(stream_body(&request), 65536);
    assert!(request.stream_took(65536).is_ok());
    assert_eq!(stream_body(&request), 4464);
    assert_eq!(request.stream_took(0), Err(BodyError::Eof));
    assert_eq!(drain_body(&request), Drain::Read(4464));
    request.drained();
    assert_eq!(drain_body(&request), Drain::Nothing);
    let long = parse(&head(&format!("Content-Length: {}", MAX_DRAIN_BYTES + 1))).unwrap();
    assert_eq!(drain_body(&long), Drain::Refuse);
    assert_eq!(BodyError::DrainTooLarge.message(), "undrained body too large; closing");
}
