use ravenna::{parse_message, parse_response, parse_status, RequestError, Response, StatusCode};

fn ok(r: Result<Response, RequestError>) -> Response {
    match r {
        Ok(resp) => resp,
        Err(e) => panic!("unexpected error: {}", e.to_string()),
    }
}

fn malformed_reason(r: Result<Response, RequestError>) -> String {
    match r {
        Err(RequestError::MalformedResponse(m)) => m,
        Err(e) => panic!("unexpected error: {}", e.to_string()),
        Ok(_) => panic!("unexpected success"),
    }
}

#[test]
fn parses_status_header_and_body() {
    for (version, code) in [("HTTP/1.0", "200"), ("HTTP/1.1", "204"), ("HTTP/2", "404"), ("X", "599")] {
        let text = format!("{version} {code} OK\r\nKey: Value\r\n\r\nBody");
        let resp = ok(parse_message(&text));
        assert_eq!(resp.header.len(), 1);
        assert_eq!(resp.header.get("key").map(|v| v.as_str()), Some("value"));
        assert_eq!(resp.body, "Body");
    }
}

#[test]
fn classifies_the_status_line() {
    let resp = ok(parse_message("HTTP/1.0 301 Moved\r\n\r\n"));
    assert_eq!(resp.status, StatusCode::Redirection);
    assert!(resp.header.is_empty());
    assert_eq!(resp.body, "");
}

#[test]
fn missing_delimiter_is_malformed() {
    for text in ["", "HTTP/1.0 200 OK", "HTTP/1.0 200 OK\r\nKey: Value\r\n", "HTTP/1.0 200 OK\n\nBody", "a\r\n\rb"] {
        assert_eq!(malformed_reason(parse_message(text)), "missing body delimiter");
        assert_eq!(malformed_reason(parse_response(text)), "missing body delimiter");
    }
}

#[test]
fn non_numeric_status_is_malformed() {
    for text in ["HTTP/1.0 abc OK\r\n\r\n", "HTTP/1.0 2x0 OK\r\n\r\n", "HTTP/1.0\r\n\r\n", "\r\n\r\nBody", "HTTP/1.0 -200 OK\r\n\r\n"] {
        assert_eq!(malformed_reason(parse_message(text)), "missing status code");
    }
}

#[test]
fn header_keys_fold_case_and_whitespace() {
    let text = "HTTP/1.0 200 OK\r\nContent-Type: text/html\r\ncontent-type : text/html\r\n\r\n";
    let resp = ok(parse_message(text));
    assert_eq!(resp.header.len(), 1);
    assert_eq!(resp.header.get("content-type").map(|v| v.as_str()), Some("text/html"));
    assert!(resp.header.get("Content-Type").is_none());
}

#[test]
fn later_header_wins_and_values_are_normalized() {
    let text = "HTTP/1.0 200 OK\r\nX-A:  First \r\nx-a:\tSECOND\t\r\nHost: a:b:c\r\n\r\n";
    let resp = ok(parse_message(text));
    assert_eq!(resp.header.len(), 2);
    assert_eq!(resp.header.get("x-a").map(|v| v.as_str()), Some("second"));
    assert_eq!(resp.header.get("host").map(|v| v.as_str()), Some("a:b:c"));
}

#[test]
fn header_line_without_colon_is_skipped() {
    let text = "HTTP/1.0 200 OK\r\nnot a header\r\nA: 1\r\n\r\nrest";
    let resp = ok(parse_message(text));
    assert_eq!(resp.header.len(), 1);
    assert_eq!(resp.header.get("a").map(|v| v.as_str()), Some("1"));
    assert_eq!(resp.body, "rest");
}

#[test]
fn body_keeps_later_blank_lines() {
    let resp = ok(parse_message("HTTP/1.0 200 OK\r\n\r\nA\r\n\r\nB"));
    assert_eq!(resp.body, "A\r\n\r\nB");
}

#[test]
fn non_success_status_is_an_error() {
    match parse_response("HTTP/1.0 404 Not Found\r\n\r\n") {
        Err(RequestError::NonSuccessStatus(c)) => assert_eq!(c, StatusCode::ClientError),
        _ => panic!("expected a non-success status"),
    }
    match parse_response("HTTP/1.0 503 Unavailable\r\n\r\n") {
        Err(RequestError::NonSuccessStatus(c)) => assert_eq!(c, StatusCode::ServerError),
        _ => panic!("expected a non-success status"),
    }
    let resp = ok(parse_response("HTTP/1.0 200 OK\r\n\r\n<p>x</p>"));
    assert_eq!(resp.status, StatusCode::Successful);
}

#[test]
fn oversized_code_is_unknown() {
    let resp = ok(parse_message("HTTP/1.0 99999999999 Huge\r\n\r\n"));
    assert_eq!(resp.status, StatusCode::Unknown);
    let resp = ok(parse_message("HTTP/1.0 65535 Max\r\n\r\n"));
    assert_eq!(resp.status, StatusCode::Unknown);
    let resp = ok(parse_message("HTTP/1.0 00200 Padded\r\n\r\n"));
    assert_eq!(resp.status, StatusCode::Successful);
}

#[test]
fn status_line_words_are_split_on_whitespace() {
    assert_eq!(parse_status("HTTP/1.0 200 OK"), Some(StatusCode::Successful));
    assert_eq!(parse_status("  HTTP/1.0 \t 404   Not Found"), Some(StatusCode::ClientError));
    assert_eq!(parse_status("HTTP/1.0"), None);
    assert_eq!(parse_status("HTTP/1.0 OK 200"), None);
    assert_eq!(parse_status(""), None);
}

#[test]
fn non_ascii_keys_and_values_are_lowercased() {
    let text = "HTTP/1.0 200 OK\r\nX: ÉCOLE\r\nÉ: x\r\né : y\r\n\r\n";
    let resp = ok(parse_message(text));
    assert_eq!(resp.header.len(), 2);
    assert_eq!(resp.header.get("x").map(|v| v.as_str()), Some("école"));
    assert_eq!(resp.header.get("é").map(|v| v.as_str()), Some("y"));
    assert!(resp.header.get("É").is_none());
}

#[test]
fn plus_sign_before_code_is_accepted() {
    assert_eq!(parse_status("HTTP/1.0 +200 OK"), Some(StatusCode::Successful));
    let resp = ok(parse_response("HTTP/1.0 +200 OK\r\nA: 1\r\n\r\nBody"));
    assert_eq!(resp.status, StatusCode::Successful);
    assert_eq!(resp.body, "Body");
    match parse_response("HTTP/1.0 +404 Not Found\r\n\r\n") {
        Err(RequestError::NonSuccessStatus(c)) => assert_eq!(c, StatusCode::ClientError),
        _ => panic!("expected a non-success status"),
    }
    for text in ["HTTP/1.0 + OK\r\n\r\n", "HTTP/1.0 ++200 OK\r\n\r\n", "HTTP/1.0 +-200 OK\r\n\r\n", "HTTP/1.0 2+00 OK\r\n\r\n"] {
        assert_eq!(malformed_reason(parse_message(text)), "missing status code");
    }
    assert_eq!(parse_status("HTTP/1.0 +"), None);
}
