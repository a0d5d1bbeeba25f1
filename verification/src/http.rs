use vstd::prelude::*;

verus! {

/// An HTTP request method, the closed set of standard methods.
#[derive(Clone, Copy, PartialEq, Eq, Structural, Debug)]
pub enum Method {
    Get,
    Head,
    Post,
    Put,
    Delete,
    Connect,
    Options,
    Trace,
    Patch,
}

/// A response produced by the framework core itself: a status code and a
/// fixed text body. Responses built by handlers or middleware never pass
/// through this type; the core only manufactures its own canonical replies.
pub struct Response {
    pub status: u16,
    pub body: String,
}

impl Response {
    /// The reply for a path that no configured router claimed.
    pub fn not_found() -> (r: Response)
        ensures
            r.status == 404,
            r.body@ == "not found\n"@,
    {
        Response { status: 404, body: String::from_str("not found\n") }
    }

    /// The reply for a routed path whose method map lacks the request's method.
    pub fn method_not_allowed() -> (r: Response)
        ensures
            r.status == 405,
            r.body@ == "method not allowed\n"@,
    {
        Response { status: 405, body: String::from_str("method not allowed\n") }
    }

    /// The reply for an unrecoverable fault caught at the request boundary.
    pub fn internal_error() -> (r: Response)
        ensures
            r.status == 500,
            r.body@ == "internal server error\n"@,
    {
        Response { status: 500, body: String::from_str("internal server error\n") }
    }

    /// The reply for a shutdown trigger that consumed the armed signal.
    pub fn shutdown_ok() -> (r: Response)
        ensures
            r.status == 200,
            r.body@ == "shutdown\n"@,
    {
        Response { status: 200, body: String::from_str("shutdown\n") }
    }

    /// The reply for a shutdown trigger that found the signal already
    /// consumed, or whose delivery failed.
    pub fn shutdown_failed() -> (r: Response)
        ensures
            r.status == 500,
            r.body@ == "error\n"@,
    {
        Response { status: 500, body: String::from_str("error\n") }
    }
}

} // verus!
