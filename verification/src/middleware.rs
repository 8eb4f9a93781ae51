//! Handlers that run before the routed one.

use vstd::prelude::*;

use crate::http::response::StatusCode;
use crate::router::Response;

verus! {

/// A pair of handlers: one run when the middleware is set up, one for every request.
pub struct Middleware<S> {
    pub setup: S,
    pub run: S,
}

impl<S> Middleware<S> {
    pub fn new(setup: S, run: S) -> (r: Self)
        ensures
            r.setup == setup,
            r.run == run,
    {
        Middleware { setup, run }
    }
}

/// Whether a middleware's response answers the request itself: a status
/// other than OK is sent back at once, and the middleware after it and the
/// routed handler do not run.
pub fn answers_early(response: &Response) -> (b: bool)
    ensures
        b == (response@.status != StatusCode::OK),
{
    response.status() != StatusCode::OK
}

/// What comes next while a request passes through the middleware: send the
/// response just made, run middleware number `i`, or run the routed handler.
#[derive(Debug, Clone, Copy, PartialEq, Eq, Structural)]
pub enum MiddlewareStep {
    Send,
    Next(usize),
    Handler,
}

/// The first step for a request, with `count` middleware installed: the first
/// of them, or the handler where there is none.
pub fn first_middleware_step(count: usize) -> (r: MiddlewareStep)
    ensures
        r == if count > 0 {
            MiddlewareStep::Next(0)
        } else {
            MiddlewareStep::Handler
        },
{
    if count > 0 {
        MiddlewareStep::Next(0)
    } else {
        MiddlewareStep::Handler
    }
}

/// The step after middleware number `index` of `count` answered `response`:
/// the response is sent where it answers early; otherwise the next middleware
/// runs, or the handler after the last one.
pub fn after_middleware(index: usize, count: usize, response: &Response) -> (r: MiddlewareStep)
    ensures
        r == if response@.status != StatusCode::OK {
            MiddlewareStep::Send
        } else if index + 1 < count {
            MiddlewareStep::Next((index + 1) as usize)
        } else {
            MiddlewareStep::Handler
        },
{
    if answers_early(response) {
        MiddlewareStep::Send
    } else if count > 0 && index < count - 1 {
        MiddlewareStep::Next(index + 1)
    } else {
        MiddlewareStep::Handler
    }
}

} // verus!
