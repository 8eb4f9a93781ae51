use std::collections::HashMap;

use silk::http::request::{HttpRequest, HttpRequestHeader, HttpRequestParser, Method};

#[test]
fn parses_correct_http_request() {
    let req_str =
        "GET /home HTTP/1.1\r\nHost: example.com\r\nAccept-Language: en\r\n\r\nHello World";

    let mut misc = HashMap::new();
    misc.insert(String::from("Host"), String::from("example.com"));
    misc.insert(String::from("Accept-Language"), String::from("en"));

    let expected_req = HttpRequest {
        header: HttpRequestHeader {
            method: Method::Get,
            path: String::from("/home"),
            protocol: String::from("HTTP/1.1"),
            misc,
        },
        content: String::from("Hello World"),
    };
    let parsed = HttpRequestParser::new(req_str).parse();
    assert_eq!(Ok(expected_req), parsed);
}
