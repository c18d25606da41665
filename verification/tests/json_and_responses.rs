use sbx_server::json::{json_string_map, list_doc, object_doc, parse_json, print_doc, text_doc, write_signed, Doc, Json};
use sbx_server::number::{parse_signed, parse_unsigned, write_decimal, write_number};
use sbx_server::response::{error_reply, status_text, ResponseWriter};
use sbx_server::strmap::StrMap;
use sbx_server::text::{join_strs, split_str};

fn chars(s: &str) -> Vec<char> {
    s.chars().collect()
}

fn json(s: &str) -> Json {
    parse_json(s.as_bytes()).unwrap_or_else(|e| panic!("{e}"))
}

#[test]
fn documents_are_read() {
    let j = json(r#"{"a":{"b":"c"},"n":18446744073709551615,"m":-9223372036854775808,"r":1.5,"t":true,"z":null,"l":[1,"x"]}"#);
    assert!(matches!(j.get("z"), Some(Json::Null)));
    assert!(matches!(j.get("t"), Some(Json::Bool(true))));
    assert_eq!(j.bool_at("t"), Some(true));
    assert_eq!(j.bool_at("n"), None);
    assert_eq!(j.u64_at("n"), Some(u64::MAX));
    assert_eq!(j.i64_at("n"), None);
    assert_eq!(j.i64_at("m"), Some(i64::MIN));
    assert_eq!(j.u64_at("m"), None);
    assert_eq!(j.u64_at("r"), None);
    assert_eq!(j.number_at("r").as_deref(), Some("1.5"));
    assert_eq!(j.number_at("m").as_deref(), Some("-9223372036854775808"));
    assert_eq!(j.number_at("t"), None);
    assert_eq!(j.text_at("a"), None);
    assert_eq!(j.get("a").and_then(|a| a.text_at("b")).as_deref(), Some("c"));
    assert!(matches!(j.get("l"), Some(Json::Array(v)) if v.len() == 2 && matches!(&v[1], Json::Str(s) if s == "x")));
    assert!(j.get("q").is_none());
    assert!(json("[1]").get("a").is_none());
}

#[test]
fn a_text_that_is_no_document_is_refused() {
    assert!(matches!(parse_json(b""), Err(m) if m == "EOF while parsing a value at line 1 column 0"));
    assert!(matches!(parse_json(b"1 2"), Err(m) if m == "trailing characters at line 1 column 3"));
    assert!(parse_json(b"\"\xff\"").is_err());
}

#[test]
fn a_map_of_texts_is_read() {
    let m = json_string_map(&json(r#"{"env":{"B":"2","A":"1","N":3}}"#), "env");
    assert_eq!(m.len(), 3);
    assert_eq!(m.get("A").map(String::as_str), Some("1"));
    assert_eq!(m.get("N").map(String::as_str), Some(""));
    assert_eq!(json_string_map(&json(r#"{"env":[1]}"#), "env").len(), 0);
    assert_eq!(json_string_map(&json("{}"), "env").len(), 0);
}

#[test]
fn documents_are_printed() {
    let d = object_doc(vec![
        ("b", list_doc(vec![Doc::Null, Doc::Bool(true), Doc::Int(-3), Doc::Uint(u64::MAX)])),
        ("a", text_doc("\"\u{1}\u{e9}")),
        ("b", text_doc("later")),
    ]);
    assert_eq!(print_doc(&d), "{\"a\":\"\\\"\\u0001\u{e9}\",\"b\":\"later\"}");
    assert_eq!(print_doc(&list_doc(vec![Doc::Int(-3), Doc::Uint(u64::MAX)])), "[-3,18446744073709551615]");
}

#[test]
fn a_printed_document_reads_back() {
    let d = object_doc(vec![("k", text_doc("a\nb")), ("n", Doc::Int(i64::MIN)), ("l", list_doc(Vec::new()))]);
    let j = json(&print_doc(&d));
    assert_eq!(j.text_at("k").as_deref(), Some("a\nb"));
    assert_eq!(j.i64_at("n"), Some(i64::MIN));
    assert!(matches!(j.get("l"), Some(Json::Array(v)) if v.is_empty()));
}

#[test]
fn numerals_are_written_and_read() {
    assert_eq!(write_decimal(0), "0");
    assert_eq!(write_decimal(u64::MAX), "18446744073709551615");
    assert_eq!(write_number(255, 16), "ff");
    assert_eq!(write_number(8, 8), "10");
    assert_eq!(write_signed(i64::MIN), "-9223372036854775808");
    assert_eq!(write_signed(5), "5");
    assert_eq!(parse_unsigned(&chars("+12"), 10, 12), Some(12));
    assert_eq!(parse_unsigned(&chars("13"), 10, 12), None);
    assert_eq!(parse_unsigned(&chars("fF"), 16, 255), Some(255));
    assert_eq!(parse_unsigned(&chars(""), 10, 9), None);
    assert_eq!(parse_unsigned(&chars("+"), 10, 9), None);
    assert_eq!(parse_signed(&chars("-2147483648")), Some(i32::MIN));
    assert_eq!(parse_signed(&chars("2147483648")), None);
    assert_eq!(parse_signed(&chars("+7")), Some(7));
}

#[test]
fn what_was_put_is_found() {
    let mut m = StrMap::new();
    m.insert("a".to_string(), "1".to_string());
    m.insert("b".to_string(), "2".to_string());
    m.insert("a".to_string(), "3".to_string());
    assert_eq!(m.get("a").map(String::as_str), Some("3"));
    assert_eq!(m.get("b").map(String::as_str), Some("2"));
    assert_eq!(m.copy().len(), 2);
    assert!(m.contains_key("b") && !m.contains_key("c"));
}

#[test]
fn splitting_undoes_joining() {
    let parts = ["a", "", "b"];
    assert_eq!(join_strs(&parts, "/"), "a//b");
    assert_eq!(split_str("a//b", '/'), parts);
    assert_eq!(split_str("", '/'), [""]);
}

#[test]
fn a_response_has_a_head_and_a_body() {
    let mut w = ResponseWriter::new(true);
    w.json(&error_reply(404, "x"));
    w.finish();
    assert_eq!(
        w.flush(),
        b"HTTP/1.1 404 Not Found\r\nContent-Type: application/json\r\nConnection: keep-alive\r\nContent-Length: 13\r\n\r\n{\"error\":\"x\"}"
            .to_vec()
    );
    assert!(w.started && !w.chunked && w.flush().is_empty());
    let mut w = ResponseWriter::new(false);
    w.error(502, "y");
    assert!(w.flush().starts_with(b"HTTP/1.1 502 Unknown\r\n"));
    w.fixed(200, "text/plain", b"z");
    assert!(w.flush().ends_with(b"Connection: close\r\nContent-Length: 1\r\n\r\nz"));
    assert_eq!(status_text(505), "HTTP Version Not Supported");
}

#[test]
fn a_stream_is_chunked() {
    let mut w = ResponseWriter::new(true);
    w.start_stream(200, "application/x-ndjson");
    assert_eq!(
        w.flush(),
        b"HTTP/1.1 200 OK\r\nContent-Type: application/x-ndjson\r\nConnection: keep-alive\r\nTransfer-Encoding: chunked\r\nX-Accel-Buffering: no\r\n\r\n"
            .to_vec()
    );
    w.chunk(&[b'x'; 26]);
    w.chunk(b"");
    assert_eq!(w.flush(), b"1a\r\nxxxxxxxxxxxxxxxxxxxxxxxxxx\r\n".to_vec());
    w.finish();
    assert_eq!(w.flush(), b"0\r\n\r\n".to_vec());
    w.raw(b"q");
    assert_eq!(w.hijack(), b"q".to_vec());
    assert!(w.hijacked);
}
