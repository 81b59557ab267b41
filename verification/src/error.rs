//! Error taxonomy of the registry: user-correctable validation problems,
//! storage problems, and the route-not-found outcome.

use vstd::prelude::*;

verus! {

/// The errors the registry can report.  Each variant carries its detail
/// as plain text so that contracts can speak about the full message.
#[derive(Debug)]
pub enum AppError {
    /// An I/O problem while reading or writing the backing file.
    Io(String),
    /// The backing file or a request body held malformed JSON.
    Json(String),
    /// No route matches the requested path.
    RouteNotFound(String),
    /// A route failed validation.
    SerdeError(String),
    /// An internal problem, such as a poisoned store lock.
    Internal(String),
}

impl AppError {
    /// The HTTP status an error is reported with at the admin surface.
    pub open spec fn spec_status(&self) -> u16 {
        match self {
            AppError::Io(_) => 500,
            AppError::Json(_) => 400,
            AppError::RouteNotFound(_) => 404,
            AppError::SerdeError(_) => 400,
            AppError::Internal(_) => 500,
        }
    }

    /// The text an error is reported with at the admin surface.
    pub open spec fn spec_message(&self) -> Seq<char> {
        match self {
            AppError::Io(d) => d@,
            AppError::Json(d) => d@,
            AppError::RouteNotFound(p) => "Route not found: "@ + p@,
            AppError::SerdeError(d) => d@,
            AppError::Internal(d) => d@,
        }
    }

    /// The HTTP status code this error maps to.
    pub fn status_code(&self) -> (r: u16)
        ensures
            r == self.spec_status(),
    {
        match self {
            AppError::Io(_) => 500,
            AppError::Json(_) => 400,
            AppError::RouteNotFound(_) => 404,
            AppError::SerdeError(_) => 400,
            AppError::Internal(_) => 500,
        }
    }

    /// The message body this error maps to.
    pub fn message(&self) -> (r: String)
        ensures
            r@ == self.spec_message(),
    {
        match self {
            AppError::Io(d) => d.clone(),
            AppError::Json(d) => d.clone(),
            AppError::RouteNotFound(p) => "Route not found: ".to_owned().concat(p.as_str()),
            AppError::SerdeError(d) => d.clone(),
            AppError::Internal(d) => d.clone(),
        }
    }
}

} // verus!
