//! One mock endpoint: method, path, status, delay and the JSON body it
//! answers with.  The body is held as JSON text; the transport layer
//! converts it to and from its own JSON values at the boundary.

use vstd::prelude::*;

use crate::error::AppError;
use crate::text::{to_upper, upper_of};

verus! {

/// The mathematical value of a route: its fields as plain sequences.
pub struct RouteSpec {
    pub method: Seq<char>,
    pub path: Seq<char>,
    pub status: u16,
    pub delay_ms: u64,
    pub response: Seq<char>,
}

impl RouteSpec {
    /// The identity of a route: its method and path.
    pub open spec fn key(self) -> (Seq<char>, Seq<char>) {
        (self.method, self.path)
    }

    /// A route that passes validation: non-empty method and path, and a
    /// status that is neither zero nor above 599.
    pub open spec fn is_valid(self) -> bool {
        &&& self.method.len() > 0
        &&& self.path.len() > 0
        &&& 1 <= self.status <= 599
    }
}

/// The configuration of one mock endpoint.
pub struct RouteConfig {
    /// HTTP method, held in canonical upper case.
    pub method: String,
    /// Exact-match URL path.
    pub path: String,
    /// HTTP status code to answer with.
    pub status: u16,
    /// Milliseconds to wait before answering.
    pub delay_ms: u64,
    /// JSON response body, as JSON text, answered verbatim.
    pub response: String,
}

impl View for RouteConfig {
    type V = RouteSpec;

    open spec fn view(&self) -> RouteSpec {
        RouteSpec {
            method: self.method@,
            path: self.path@,
            status: self.status,
            delay_ms: self.delay_ms,
            response: self.response@,
        }
    }
}

impl Clone for RouteConfig {
    fn clone(&self) -> (r: Self)
        ensures
            r@ == self@,
    {
        RouteConfig {
            method: self.method.clone(),
            path: self.path.clone(),
            status: self.status,
            delay_ms: self.delay_ms,
            response: self.response.clone(),
        }
    }
}

impl RouteConfig {
    /// Builds a route, putting the method into canonical upper case.
    /// Nothing is validated here; `validate` is a separate step.
    pub fn new(method: String, path: String, status: u16, delay_ms: u64, response: String) -> (r:
        Self)
        ensures
            r@ == (RouteSpec {
                method: upper_of(method@),
                path: path@,
                status: status,
                delay_ms: delay_ms,
                response: response@,
            }),
            r@.method.len() == 0 <==> method@.len() == 0,
    {
        RouteConfig { method: to_upper(method.as_str()), path, status, delay_ms, response }
    }

    /// Checks the route's shape: the method and path must be non-empty and
    /// the status must be neither zero nor above 599.  Returns exactly which
    /// check failed first, and succeeds exactly on valid routes.
    pub fn validate(&self) -> (r: Result<(), AppError>)
        ensures
            r is Ok <==> self@.is_valid(),
            self@.method.len() == 0 ==> (r matches Err(AppError::SerdeError(m)) && m@
                == "Method cannot be empty"@),
            self@.method.len() > 0 && self@.path.len() == 0 ==> (r matches Err(
                AppError::SerdeError(m),
            ) && m@ == "Path cannot be empty"@),
            self@.method.len() > 0 && self@.path.len() > 0 && !(1 <= self.status <= 599) ==> (
            r matches Err(AppError::SerdeError(m)) && m@
                == "Status must be between 100 and 599"@),
    {
        if self.method.as_str().unicode_len() == 0 {
            return Err(AppError::SerdeError("Method cannot be empty".to_owned()));
        }
        if self.path.as_str().unicode_len() == 0 {
            return Err(AppError::SerdeError("Path cannot be empty".to_owned()));
        }
        if self.status == 0 || self.status > 599 {
            return Err(AppError::SerdeError("Status must be between 100 and 599".to_owned()));
        }
        Ok(())
    }
}

} // verus!
