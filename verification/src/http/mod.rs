//! HTTP paths and routing trees, requests and responses.

pub mod extract;
pub mod path;
pub mod path_laws;
pub mod request;
pub mod request_laws;
pub mod response;
pub mod response_laws;

pub use request::Method;


