//! The outcome classes of numeric status codes.
use vstd::prelude::*;

verus! {

/// Coarse outcome class of a numeric status code.
#[derive(Debug, Clone, Copy, PartialEq, Eq, Structural)]
pub enum StatusCode {
    Informational,
    Successful,
    Redirection,
    ClientError,
    ServerError,
    Unknown,
}

/// The class of a status code, or `Unknown` when there is none.
pub open spec fn classify(code: Option<u16>) -> StatusCode {
    match code {
        Some(n) => if 100 <= n && n <= 199 {
            StatusCode::Informational
        } else if 200 <= n && n <= 299 {
            StatusCode::Successful
        } else if 300 <= n && n <= 399 {
            StatusCode::Redirection
        } else if 400 <= n && n <= 499 {
            StatusCode::ClientError
        } else if 500 <= n && n <= 599 {
            StatusCode::ServerError
        } else {
            StatusCode::Unknown
        },
        None => StatusCode::Unknown,
    }
}

impl From<Option<u16>> for StatusCode {
    fn from(status: Option<u16>) -> (r: StatusCode)
        ensures r == classify(status),
    {
        match status {
            Some(n) => if 100 <= n && n <= 199 {
                StatusCode::Informational
            } else if 200 <= n && n <= 299 {
                StatusCode::Successful
            } else if 300 <= n && n <= 399 {
                StatusCode::Redirection
            } else if 400 <= n && n <= 499 {
                StatusCode::ClientError
            } else if 500 <= n && n <= 599 {
                StatusCode::ServerError
            } else {
                StatusCode::Unknown
            },
            None => StatusCode::Unknown,
        }
    }
}

impl vstd::std_specs::convert::FromSpecImpl<Option<u16>> for StatusCode {
    open spec fn obeys_from_spec() -> bool {
        true
    }

    open spec fn from_spec(v: Option<u16>) -> StatusCode {
        classify(v)
    }
}

} // verus!
