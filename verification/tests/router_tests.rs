use silk::{
    error_handler::ErrorHandler,
    get,
    http::{
        path::{HttpNodeTree, ServiceCollection},
        request::{HttpRequestParser, Method},
        response::StatusCode,
    },
    middleware::{after_middleware, answers_early, first_middleware_step, MiddlewareStep},
    post,
    router::{Response, Router},
};

fn services(n: u32) -> ServiceCollection<u32> {
    ServiceCollection::default().set_get(n)
}

#[test]
fn a_pattern_route_finds_every_matching_request() {
    let router = Router::with_error_handler(ErrorHandler::new(0u32))
        .route("/users/{id}/posts/{post}", get(7u32));
    let (c, vars) = router.get_route("/users/12/posts/abc").unwrap().unwrap();
    assert_eq!(Some(&7), c.get());
    assert_eq!(2, vars.len());
    assert_eq!(Some(&"12".to_string()), vars.get("id"));
    assert_eq!(Some(&"abc".to_string()), vars.get("post"));
    assert!(!router.lookup_breaks("/users/é/posts/ü"));
    let (_, vars) = router.get_route("/users/é/posts/ü").unwrap().unwrap();
    assert_eq!(Some(&"é".to_string()), vars.get("id"));
}

#[test]
fn the_example_routes_answer_side_by_side() {
    let router = Router::with_error_handler(ErrorHandler::new(0u32))
        .route("/hello/{user}", get(1u32))
        .route("/headers", get(2u32));
    let (c, vars) = router.get_route("/headers").unwrap().unwrap();
    assert_eq!(Some(&2), c.get());
    assert!(vars.is_empty());
    let (c, vars) = router.get_route("/hello/bob").unwrap().unwrap();
    assert_eq!(Some(&1), c.get());
    assert_eq!(Some(&"bob".to_string()), vars.get("user"));
}

#[test]
fn a_static_route_is_found_among_many() {
    let router = Router::with_error_handler(ErrorHandler::new(0u32))
        .route("/a/{x}", get(1u32))
        .route("/{y}", get(2u32))
        .route("/a/b/c", get(3u32))
        .route("/a/b", post(4u32));
    let (c, vars) = router.get_route("/a/b").unwrap().unwrap();
    assert_eq!(Some(&4), c.post());
    assert_eq!(None, c.get());
    assert!(vars.is_empty());
    let (c, _) = router.get_route("/a/b/c").unwrap().unwrap();
    assert_eq!(Some(&3), c.get());
}

#[test]
fn an_unrelated_route_leaves_a_lookup_as_it_was() {
    let mut tree: HttpNodeTree<u32> = HttpNodeTree::new();
    assert!(tree.add_service("/hello/{user}", services(1)).is_ok());
    let (before, vars_before) = tree.get_node("/hello/bob").unwrap().unwrap();
    let before = before.methods.get().copied();
    assert!(tree.add_service("/headers", services(2)).is_ok());
    assert!(tree.add_service("/other/{x}", services(3)).is_ok());
    let (after, vars_after) = tree.get_node("/hello/bob").unwrap().unwrap();
    assert_eq!(before, after.methods.get().copied());
    assert_eq!(vars_before, vars_after);
    assert_eq!(Some(1), before);
}

#[test]
fn a_route_that_repeats_a_segment_is_not_found_again() {
    let router = Router::with_error_handler(ErrorHandler::new(0u32)).route("/a/a", get(1u32));
    assert!(router.get_route("/a/a").is_none());
    let (c, _) = router.get_route("/a").unwrap().unwrap();
    assert_eq!(Some(&1), c.get());
}

#[test]
fn middleware_answers_early_on_any_status_but_ok() {
    assert!(!answers_early(&Response::html("fine")));
    assert!(answers_early(&Response::html("no").with_status(StatusCode::NotFound)));
    assert!(answers_early(&Response::html("no").with_status(StatusCode::Created)));
}

#[test]
fn a_parser_reads_the_bytes_of_a_connection() {
    let parsed = HttpRequestParser::from_bytes(b"POST /x HTTP/1.1\r\n\r\nhi").parse().unwrap();
    assert_eq!(Method::Post, parsed.header.method);
    assert_eq!("/x", parsed.header.path);
    assert_eq!("hi", parsed.content);
    let parsed = HttpRequestParser::from_bytes(b"GET /\xffa HTTP/1.1\r\n\r\n").parse().unwrap();
    assert_eq!("/\u{FFFD}a", parsed.header.path);
    let parsed = HttpRequestParser::from_bytes("GET /é HTTP/1.1\r\n\r\n".as_bytes()).parse().unwrap();
    assert_eq!("/é", parsed.header.path);
}

#[test]
fn routes_that_share_a_leading_part_live_side_by_side() {
    let router = Router::with_error_handler(ErrorHandler::new(0u32))
        .route("/hello/{user}", get(1u32))
        .route("/hello/world", get(2u32))
        .route("/hello", get(3u32));
    let (c, vars) = router.get_route("/hello/bob").unwrap().unwrap();
    assert_eq!(Some(&1), c.get());
    assert_eq!(Some(&"bob".to_string()), vars.get("user"));
    let (c, vars) = router.get_route("/hello/world").unwrap().unwrap();
    assert_eq!(Some(&2), c.get());
    assert!(vars.is_empty());
    let (c, vars) = router.get_route("/hello").unwrap().unwrap();
    assert_eq!(Some(&3), c.get());
    assert!(vars.is_empty());
}

#[test]
fn middleware_steps_run_each_in_turn_until_one_answers() {
    assert_eq!(MiddlewareStep::Handler, first_middleware_step(0));
    assert_eq!(MiddlewareStep::Next(0), first_middleware_step(3));
    let ok = Response::html("fine");
    let refused = Response::html("no").with_status(StatusCode::Forbidden);
    assert_eq!(MiddlewareStep::Next(1), after_middleware(0, 3, &ok));
    assert_eq!(MiddlewareStep::Handler, after_middleware(2, 3, &ok));
    assert_eq!(MiddlewareStep::Send, after_middleware(0, 3, &refused));
    assert_eq!(MiddlewareStep::Send, after_middleware(2, 3, &refused));
}

#[test]
fn ascii_paths_never_break_a_lookup() {
    let router = Router::with_error_handler(ErrorHandler::new(0u32))
        .route("/a/{x}", get(1u32))
        .route("/b/{y}/c", get(2u32));
    for path in ["/a/{ab}", "/a/zz", "/b/{q}/c", "/b/%7B/c", "/a/{", "/a/{}"] {
        assert!(!router.lookup_breaks(path));
    }
    assert!(router.lookup_breaks("/a/{éb}"));
}
