use ravenna::{parse_response, parse_url, DisplayableResponse, RequestError, StatusCode};

#[test]
fn shows_body_without_markup() {
    let shown = DisplayableResponse(parse_response("HTTP/1.0 200 OK\r\n\r\n<h1>Title</h1> text")).to_string();
    assert_eq!(shown, "Title text");
}

#[test]
fn shows_errors() {
    assert_eq!(RequestError::ConnectionFailed.to_string(), "Connection failed");
    assert_eq!(RequestError::TlsFailed.to_string(), "TLS handshake failed");
    assert_eq!(
        RequestError::MalformedResponse("missing body delimiter".to_string()).to_string(),
        "Malformed HTTPS Response: `missing body delimiter`"
    );
    assert_eq!(RequestError::NonSuccessStatus(StatusCode::ClientError).to_string(), "Error code: ClientError");
    let shown = DisplayableResponse(parse_response("HTTP/1.0 500 Oops\r\n\r\n")).to_string();
    assert_eq!(shown, "Error code: ServerError");
}

#[test]
fn splits_address_at_first_slash() {
    assert_eq!(parse_url("example.org/index.html"), Some(("example.org", "/index.html")));
    assert_eq!(parse_url("a/b/c"), Some(("a", "/b/c")));
    assert_eq!(parse_url("/x"), Some(("", "/x")));
    assert_eq!(parse_url("héllo.fr/ü"), Some(("héllo.fr", "/ü")));
    assert_eq!(parse_url("example.org"), None);
    assert_eq!(parse_url(""), None);
}
