//! A small HTTP server framework: path routing, request parsing and
//! response rendering. Handlers are carried as values of a type parameter
//! `S`; running them is left to the caller.

pub mod error_handler;
pub mod http;
pub mod middleware;
pub mod router;
pub mod router_laws;
pub mod text;

use vstd::prelude::*;

use crate::http::path::ServiceCollection;

verus! {

/// A collection with `service` as its GET handler.
pub fn get<S>(service: S) -> (r: ServiceCollection<S>)
    ensures
        r.get == Some(service),
        r.post is None,
{
    ServiceCollection::default().set_get(service)
}

/// A collection with `service` as its POST handler.
pub fn post<S>(service: S) -> (r: ServiceCollection<S>)
    ensures
        r.get is None,
        r.post == Some(service),
{
    ServiceCollection::default().set_post(service)
}

} // verus!
