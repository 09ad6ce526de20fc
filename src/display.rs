//! The text shown for an outcome: the body reduced to plain text, or a
//! description of the error.
use vstd::prelude::*;
use crate::markup::{strip, strip_markup};
use crate::response::{ErrorView, RequestError, Response};
use crate::status::StatusCode;

verus! {

/// The name of an outcome class.
pub open spec fn status_label(c: StatusCode) -> Seq<char> {
    match c {
        StatusCode::Informational => "Informational"@,
        StatusCode::Successful => "Successful"@,
        StatusCode::Redirection => "Redirection"@,
        StatusCode::ClientError => "ClientError"@,
        StatusCode::ServerError => "ServerError"@,
        StatusCode::Unknown => "Unknown"@,
    }
}

/// The description of an error.
pub open spec fn error_message(e: ErrorView) -> Seq<char> {
    match e {
        ErrorView::ConnectionFailed => "Connection failed"@,
        ErrorView::TlsFailed => "TLS handshake failed"@,
        ErrorView::MalformedResponse(m) => "Malformed HTTPS Response: `"@ + m + "`"@,
        ErrorView::NonSuccessStatus(c) => "Error code: "@ + status_label(c),
    }
}

impl StatusCode {
    pub fn label(&self) -> (r: String)
        ensures
            r@ == status_label(*self),
    {
        match self {
            StatusCode::Informational => String::from_str("Informational"),
            StatusCode::Successful => String::from_str("Successful"),
            StatusCode::Redirection => String::from_str("Redirection"),
            StatusCode::ClientError => String::from_str("ClientError"),
            StatusCode::ServerError => String::from_str("ServerError"),
            StatusCode::Unknown => String::from_str("Unknown"),
        }
    }
}

impl RequestError {
    /// The description of this error.
    pub fn to_string(&self) -> (r: String)
        ensures
            r@ == error_message(self@),
    {
        match self {
            RequestError::ConnectionFailed => String::from_str("Connection failed"),
            RequestError::TlsFailed => String::from_str("TLS handshake failed"),
            RequestError::MalformedResponse(m) => {
                let mut r = String::from_str("Malformed HTTPS Response: `");
                r.append(m.as_str());
                r.append("`");
                r
            },
            RequestError::NonSuccessStatus(c) => {
                let r = String::from_str("Error code: ");
                let name = c.label();
                r.concat(name.as_str())
            },
        }
    }
}

/// The outcome of a fetch, as it is shown.
pub struct DisplayableResponse(pub Result<Response, RequestError>);

/// The text shown for an outcome.
pub open spec fn shown(d: DisplayableResponse) -> Seq<char> {
    match d.0 {
        Ok(resp) => strip(resp.body@),
        Err(e) => error_message(e@),
    }
}

impl DisplayableResponse {
    /// The body without markup, or the description of the error.
    pub fn to_string(&self) -> (r: String)
        ensures
            r@ == shown(*self),
    {
        match &self.0 {
            Ok(resp) => strip_markup(resp.body.as_str()),
            Err(e) => e.to_string(),
        }
    }
}

} // verus!
