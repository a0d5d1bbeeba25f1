use vstd::prelude::*;

pub mod config;
pub mod dispatch;
pub mod http;
pub mod pipeline;
pub mod routing;
pub mod shutdown;

verus! {

use crate::http::Method;

/// One in-flight HTTP exchange, as the routing core sees it: the request
/// identifier assigned by the server shell, the parsed method and path, and
/// the path parameters captured by whichever pattern router matched last
/// (empty until a pattern matches).
pub struct Request {
    pub id: u128,
    pub method: Method,
    pub path: String,
    pub path_params: Vec<String>,
}

} // verus!
