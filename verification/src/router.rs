//! The router: routes by path, a fallback for what no route takes, and the
//! responses that handlers give back.

use vstd::prelude::*;

use crate::error_handler::ErrorHandler;
use crate::http::path::{
    fresh_node, add_at, lookup, lookup_breaks, parsed_path, service_for, view_found, HttpNodeTree,
    NodeView, PathVariables, SegmentParseError, SegmentView, ServiceCollection,
};
use crate::http::path_laws::{law_add_keeps_wf, law_fresh_tree_wf, tree_wf};
use crate::http::request::{HttpRequest, Method};
use crate::http::response::{
    utf8_len, ContentType, HttpResponse, HttpResponseHeader, StatusCode,
};
use crate::text::{new_string_map, string_map_view};

verus! {

broadcast use vstd::string::group_string_axioms;

/// Routes requests by their path.
pub struct Router<S> {
    routes: HttpNodeTree<S>,
    error_handler: ErrorHandler<S>,
}

impl<S> Router<S> {
    /// The routing tree.
    pub closed spec fn routes(&self) -> NodeView<S> {
        self.routes@
    }

    /// The handler for requests that no route takes.
    pub closed spec fn fallback(&self) -> S {
        self.error_handler.not_found
    }

    /// A router with no routes and `error_handler` as its fallback.
    pub fn with_error_handler(error_handler: ErrorHandler<S>) -> (r: Self)
        ensures
            r.routes() == fresh_node::<S>(SegmentView::Static("/"@)),
            tree_wf(r.routes()),
            r.fallback() == error_handler.not_found,
    {
        proof {
            law_fresh_tree_wf::<S>(SegmentView::Static("/"@));
        }
        Router { routes: HttpNodeTree::new(), error_handler }
    }

    /// The router with `services` registered under `path`.
    pub fn route(self, path: &str, services: ServiceCollection<S>) -> (r: Self)
        requires
            add_at(self.routes(), parsed_path(path@), services).1 is Ok,
        ensures
            r.routes() == add_at(self.routes(), parsed_path(path@), services).0,
            tree_wf(self.routes()) ==> tree_wf(r.routes()),
            r.fallback() == self.fallback(),
    {
        proof {
            if tree_wf(self.routes()) {
                law_add_keeps_wf(self.routes(), parsed_path(path@), services);
            }
        }
        let mut this = self;
        let res = this.routes.add_service(path, services);
        match res {
            Ok(()) => this,
            Err(_) => {
                assert(false);
                this
            },
        }
    }

    /// Registers `services` under `path`, answering the error of a segment that
    /// does not parse where `route` would stop.
    pub fn try_route(self, path: &str, services: ServiceCollection<S>) -> (r: Result<Self, SegmentParseError>)
        ensures
            match r {
                Ok(router) => add_at(self.routes(), parsed_path(path@), services).1 is Ok
                    && router.routes() == add_at(self.routes(), parsed_path(path@), services).0
                    && (tree_wf(self.routes()) ==> tree_wf(router.routes()))
                    && router.fallback() == self.fallback(),
                Err(e) => add_at(self.routes(), parsed_path(path@), services).1 == Err::<(), SegmentParseError>(e),
            },
    {
        proof {
            if tree_wf(self.routes()) {
                law_add_keeps_wf(self.routes(), parsed_path(path@), services);
            }
        }
        let mut this = self;
        match this.routes.add_service(path, services) {
            Ok(()) => Ok(this),
            Err(e) => Err(e),
        }
    }

    /// The handler for requests that no route takes.
    pub fn not_found(&self) -> (r: &S)
        ensures
            *r == self.fallback(),
    {
        &self.error_handler.not_found
    }

    /// Whether looking up `path` would slice a segment's text where it has no
    /// character boundary; `get_route` and `resolve` must not be asked then.
    pub fn lookup_breaks(&self, path: &str) -> (b: bool)
        ensures
            b == lookup_breaks(self.routes(), parsed_path(path@)),
    {
        self.routes.lookup_breaks(path)
    }

    /// The services registered for `path`, with the variables its patterns bind.
    pub fn get_route(&self, path: &str) -> (r: Option<Result<(&ServiceCollection<S>, PathVariables), SegmentParseError>>)
        requires
            !lookup_breaks(self.routes(), parsed_path(path@)),
        ensures
            match lookup(self.routes(), parsed_path(path@)) {
                None => r is None,
                Some(Err(e)) => r == Some(Err::<(&ServiceCollection<S>, PathVariables), SegmentParseError>(e)),
                Some(Ok((n, vars))) => r matches Some(Ok((c, v))) && *c == n.methods && string_map_view(v) == vars,
            },
    {
        match self.routes.get_node(path) {
            None => None,
            Some(Err(e)) => Some(Err(e)),
            Some(Ok((node, vars))) => Some(Ok((&node.methods, vars))),
        }
    }

    /// The handler that answers a `method` request for `path`, with the
    /// variables bound: the route's handler for the method, or the fallback
    /// where the route has none or no route takes the path. A segment of the
    /// path that does not parse gives its error.
    pub fn resolve(&self, path: &str, method: &Method) -> (r: Result<(&S, PathVariables), SegmentParseError>)
        requires
            !lookup_breaks(self.routes(), parsed_path(path@)),
        ensures
            match lookup(self.routes(), parsed_path(path@)) {
                None => r matches Ok((s, v)) && *s == self.fallback() && string_map_view(v) == Map::<Seq<char>, Seq<char>>::empty(),
                Some(Err(e)) => r == Err::<(&S, PathVariables), SegmentParseError>(e),
                Some(Ok((n, vars))) => r matches Ok((s, v)) && string_map_view(v) == vars && *s == match service_for(n.methods, *method) {
                    Some(x) => x,
                    None => self.fallback(),
                },
            },
            *method != Method::Get && *method != Method::Post ==> (r matches Ok((s, v)) ==> *s == self.fallback()),
    {
        match self.get_route(path) {
            Some(Ok((services, vars))) => match services.method(method) {
                Some(s) => Ok((s, vars)),
                None => Ok((self.not_found(), vars)),
            },
            Some(Err(e)) => Err(e),
            None => Ok((self.not_found(), new_string_map())),
        }
    }
}

/// What a handler answers.
#[derive(Debug)]
pub struct Response {
    status: StatusCode,
    content_type: ContentType,
    reason_phrase: String,
    body: String,
}

/// The mathematical content of a [`Response`].
pub struct ResponseView {
    pub status: StatusCode,
    pub content_type: ContentType,
    pub reason_phrase: Seq<char>,
    pub body: Seq<char>,
}

impl View for Response {
    type V = ResponseView;

    closed spec fn view(&self) -> ResponseView {
        ResponseView {
            status: self.status,
            content_type: self.content_type,
            reason_phrase: self.reason_phrase@,
            body: self.body@,
        }
    }
}

impl Response {
    /// An HTML response with status OK and no reason phrase.
    pub fn html(body: &str) -> (r: Self)
        ensures
            r@ == (ResponseView {
                status: StatusCode::OK,
                content_type: ContentType::TextHtml,
                reason_phrase: Seq::empty(),
                body: body@,
            }),
    {
        Response {
            status: StatusCode::OK,
            content_type: ContentType::TextHtml,
            reason_phrase: String::new(),
            body: String::from_str(body),
        }
    }

    /// The response with its status replaced.
    pub fn with_status(self, status: StatusCode) -> (r: Self)
        ensures
            r@ == (ResponseView { status: status, ..self@ }),
    {
        let mut this = self;
        this.status = status;
        this
    }

    /// The response with its reason phrase replaced.
    pub fn with_reasoning(self, reason: &str) -> (r: Self)
        ensures
            r@ == (ResponseView { reason_phrase: reason@, ..self@ }),
    {
        let mut this = self;
        this.reason_phrase = String::from_str(reason);
        this
    }

    /// The response's status.
    pub fn status(&self) -> (s: StatusCode)
        ensures
            s == self@.status,
    {
        self.status
    }

    /// The response to send for a request: it speaks the request's protocol,
    /// and its content length is the body's length in bytes.
    pub fn into_http_response(self, origin: HttpRequest) -> (r: HttpResponse)
        ensures
            r.header.protocol@ == origin.header.protocol@,
            r.header.status_code == self@.status,
            r.header.reason_phrase@ == self@.reason_phrase,
            r.content_type == self@.content_type,
            r.content_length == utf8_len(self@.body) as usize,
            r.body@ == self@.body,
    {
        let content_length = self.body.as_str().len();
        HttpResponse {
            header: HttpResponseHeader {
                protocol: origin.header.protocol,
                status_code: self.status,
                reason_phrase: self.reason_phrase,
            },
            content_type: self.content_type,
            content_length,
            body: self.body,
        }
    }
}

} // verus!
