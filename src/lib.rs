//! A small client for fetching one resource over an encrypted text protocol:
//! the request it sends, the parsing and classification of the response, and
//! the reduction of markup for plain display.
pub mod display;
pub mod headers;
pub mod markup;
pub mod response;
pub mod status;
pub mod stream;
pub mod text;
pub mod url;

pub use display::DisplayableResponse;
pub use headers::Headers;
pub use markup::strip_markup;
pub use response::{parse_message, parse_response, parse_status, RequestError, Response};
pub use status::StatusCode;
pub use stream::{request_text, response_from_bytes, Accumulator};
pub use url::parse_url;
