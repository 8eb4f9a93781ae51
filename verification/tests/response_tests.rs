use silk::{
    error_handler::ErrorHandler,
    get,
    http::{
        extract::{Body, Headers, RequestExtractor},
        path::ServiceCollection,
        request::{HttpRequestParser, Method},
        response::{ContentType, HttpResponse, HttpResponseHeader, StatusCode},
    },
    middleware::Middleware,
    post,
    router::{Response, Router},
};

#[test]
fn response_text() {
    let header = HttpResponseHeader {
        protocol: "HTTP/1.1".to_string(),
        status_code: StatusCode::NotFound,
        reason_phrase: "Not Found".to_string(),
    };
    let r = HttpResponse::new(header, ContentType::TextHtml, "héllo");
    assert_eq!(6, r.content_length);
    assert_eq!(
        "HTTP/1.1 404 Not Found \r\nContent-Type: text/html\r\nContent-Length: 6\r\n\r\nhéllo",
        r.to_string()
    );
}

#[test]
fn default_response_text() {
    assert_eq!(
        " 200  \r\nContent-Type: text/plain\r\nContent-Length: 0\r\n\r\n",
        HttpResponse::default().to_string()
    );
}

#[test]
fn status_codes_and_content_types() {
    assert_eq!(200, StatusCode::OK.code());
    assert_eq!(418, StatusCode::Teapot.code());
    assert_eq!(505, StatusCode::HttpVersionUnsupported.code());
    assert_eq!(StatusCode::OK, StatusCode::default());
    assert_eq!("application/x-www-form-urlencoded", ContentType::AppForm.to_string());
    assert_eq!("multipart/form-data", ContentType::FormData.to_string());
    assert_eq!("text/plain", ContentType::default().to_string());
}

#[test]
fn handler_response_speaks_the_request_protocol() {
    let req = HttpRequestParser::new("GET / HTTP/1.0\r\n\r\n").parse().unwrap();
    let r = Response::html("añb")
        .with_status(StatusCode::Created)
        .with_reasoning("made");
    assert_eq!(StatusCode::Created, r.status());
    let http = r.into_http_response(req);
    assert_eq!(
        "HTTP/1.0 201 made \r\nContent-Type: text/html\r\nContent-Length: 4\r\n\r\nañb",
        http.to_string()
    );
}

#[test]
fn router_resolves_by_path_and_method() {
    let router = Router::with_error_handler(ErrorHandler::new(0u32))
        .route("/a/{x}", get(1u32).set_post(2u32));
    assert_eq!(&0, router.not_found());
    let (s, vars) = router.resolve("/a/zed", &Method::Get).unwrap();
    assert_eq!(&1, s);
    assert_eq!(Some(&"zed".to_string()), vars.get("x"));
    let (s, _) = router.resolve("/a/zed", &Method::Post).unwrap();
    assert_eq!(&2, s);
    let (s, _) = router.resolve("/a/zed", &Method::Put).unwrap();
    assert_eq!(&0, s);
    let (s, vars) = router.resolve("/nowhere", &Method::Get).unwrap();
    assert_eq!(&0, s);
    assert!(vars.is_empty());
    assert!(router.resolve("/{", &Method::Get).is_err());
    let (services, _) = router.get_route("/a/b").unwrap().unwrap();
    assert_eq!(Some(&2), services.post());
    assert!(!router.lookup_breaks("/a/zed"));
}

#[test]
fn several_routes_live_side_by_side() {
    let router = Router::with_error_handler(ErrorHandler::new(0u32))
        .route("/hello/{user}", get(1u32))
        .route("/headers", get(2u32))
        .route("/b", post(3u32));
    let (s, vars) = router.resolve("/hello/bob", &Method::Get).unwrap();
    assert_eq!(&1, s);
    assert_eq!(Some(&"bob".to_string()), vars.get("user"));
    let (s, vars) = router.resolve("/headers", &Method::Get).unwrap();
    assert_eq!(&2, s);
    assert!(vars.is_empty());
    let (s, _) = router.resolve("/b", &Method::Post).unwrap();
    assert_eq!(&3, s);
    let (s, _) = router.resolve("/headers", &Method::Post).unwrap();
    assert_eq!(&0, s);
}

#[test]
fn bad_route_is_refused_by_try_route() {
    let router: Router<u32> = Router::with_error_handler(ErrorHandler::new(0));
    assert!(router.try_route("/a/{}", ServiceCollection::default()).is_err());
}

#[test]
fn collections_by_method() {
    let c = ServiceCollection::default().set_get(1u8).set_post(2u8);
    assert_eq!(Some(&1), c.method(&Method::Get));
    assert_eq!(Some(&2), c.method(&Method::Post));
    assert_eq!(None, c.method(&Method::Put));
}

#[test]
fn extractors_copy_from_the_request() {
    let req = HttpRequestParser::new("GET / HTTP/1.1\r\nK: v\r\n\r\nhi").parse().unwrap();
    let headers = Headers::from_request(&req);
    assert_eq!(Some(&"v".to_string()), headers.get("K"));
    let body = Body::from_request(&req);
    assert_eq!("hi", body.as_str());
}

#[test]
fn middleware_and_error_handler_hold_their_handlers() {
    let m = Middleware::new(1u8, 2u8);
    assert_eq!((1, 2), (m.setup, m.run));
    assert_eq!(5u8, ErrorHandler::new(5u8).not_found);
}
