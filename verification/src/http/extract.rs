//! Values that handlers take out of a request.

use std::collections::HashMap;
use vstd::prelude::*;

use crate::http::request::HttpRequest;
use crate::text::string_map_view;

verus! {

/// A value made from a request.
pub trait RequestExtractor: Sized {
    fn from_request(req: &HttpRequest) -> Self;
}

/// A copy of a map (`HashMap::clone`): same contents.
#[verifier::external_body]
fn clone_string_map(m: &HashMap<String, String>) -> (r: HashMap<String, String>)
    ensures
        string_map_view(r) == string_map_view(*m),
{
    m.clone()
}

/// The header fields of a request.
pub struct Headers(pub HashMap<String, String>);

impl RequestExtractor for Headers {
    fn from_request(req: &HttpRequest) -> (r: Self)
        ensures
            string_map_view(r.0) == req@.misc,
    {
        Headers(clone_string_map(&req.header.misc))
    }
}

impl core::ops::Deref for Headers {
    type Target = HashMap<String, String>;

    fn deref(&self) -> (r: &HashMap<String, String>)
        ensures
            *r == self.0,
    {
        &self.0
    }
}

/// The content of a request.
pub struct Body(pub String);

impl RequestExtractor for Body {
    fn from_request(req: &HttpRequest) -> (r: Self)
        ensures
            r.0@ == req@.content,
    {
        Body(req.content.clone())
    }
}

impl core::ops::Deref for Body {
    type Target = String;

    fn deref(&self) -> (r: &String)
        ensures
            *r == self.0,
    {
        &self.0
    }
}

} // verus!
