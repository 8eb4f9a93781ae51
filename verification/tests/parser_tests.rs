use std::collections::HashMap;

use silk::http::request::{HttpRequest, HttpRequestParser, Method, ParseError};

#[test]
fn methods_by_name() {
    assert_eq!(Some(Method::Get), Method::from_name("GET"));
    assert_eq!(Some(Method::Post), Method::from_name("POST"));
    assert_eq!(Some(Method::Head), Method::from_name("HEAD"));
    assert_eq!(Some(Method::Put), Method::from_name("PUT"));
    assert_eq!(Some(Method::Delete), Method::from_name("DELETE"));
    assert_eq!(Some(Method::Connect), Method::from_name("CONNECT"));
    assert_eq!(Some(Method::Options), Method::from_name("OPTIONS"));
    assert_eq!(Some(Method::Trace), Method::from_name("TRACE"));
    assert_eq!(Some(Method::Patch), Method::from_name("PATCH"));
    assert_eq!(None, Method::from_name("get"));
    assert_eq!(None, Method::from_name(""));
}

#[test]
fn truncated_request_lines_are_invalid() {
    for text in [
        "GET",
        "FOO / HTTP/1.1\r\n\r\n",
        "GET /",
        "GET / HTTP/1.1",
        "GET / HTTP/1.1\r",
    ] {
        let parser = HttpRequestParser::new(text);
        assert!(parser.parse_ends());
        assert_eq!(Err(ParseError::InvalidHeader), parser.parse());
    }
}

#[test]
fn input_ending_inside_the_fields_never_ends() {
    assert!(!HttpRequestParser::new("GET / HTTP/1.1\r\nHost: x").parse_ends());
    assert!(HttpRequestParser::new("GET / HTTP/1.1\r\nHost: x\r\n\r\n").parse_ends());
}

#[test]
fn fields_keep_the_last_value_and_drop_leading_spaces() {
    let parsed = HttpRequestParser::new(
        "POST /form HTTP/1.0\r\nA:    one\r\nB: two\r\nA: three\r\n\r\n\r\n\nbody\r\n",
    )
    .parse()
    .unwrap();
    let mut misc = HashMap::new();
    misc.insert("A".to_string(), "three".to_string());
    misc.insert("B".to_string(), "two".to_string());
    assert_eq!(Method::Post, parsed.header.method);
    assert_eq!("/form", parsed.header.path);
    assert_eq!("HTTP/1.0", parsed.header.protocol);
    assert_eq!(misc, parsed.header.misc);
    assert_eq!("body\r\n", parsed.content);
}

#[test]
fn request_without_fields_or_content() {
    let parsed = HttpRequestParser::new("DELETE /x HTTP/1.1\r\n\r\n").parse().unwrap();
    assert_eq!(Method::Delete, parsed.header.method);
    assert!(parsed.header.misc.is_empty());
    assert_eq!("", parsed.content);
}

#[test]
fn step_by_step_reading() {
    let mut parser = HttpRequestParser::new("ab:  cd");
    assert_eq!(Some('a'), parser.next());
    assert!(parser.collect_until(':'));
    parser.skip_while(|c| c == ' ');
    assert_eq!(Some('c'), parser.next());
    assert!(!parser.collect_until('x'));
    assert_eq!(None, parser.next());
}

#[test]
fn empty_request_is_a_get() {
    let r = HttpRequest::default();
    assert_eq!(Method::Get, r.header.method);
    assert_eq!("", r.header.path);
    assert!(r.header.misc.is_empty());
}

#[test]
fn parse_error_message() {
    assert_eq!("Invalid Header", ParseError::InvalidHeader.to_string());
}
