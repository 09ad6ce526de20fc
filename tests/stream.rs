use ravenna::{request_text, response_from_bytes, Accumulator, RequestError, StatusCode};

#[test]
fn request_has_line_host_and_blank_line() {
    assert_eq!(request_text("example.org", "/index.html"), "GET /index.html HTTP/1.0\r\nHost: example.org\r\n\r\n");
    assert_eq!(request_text("", "/"), "GET / HTTP/1.0\r\nHost: \r\n\r\n");
}

#[test]
fn any_split_between_two_reads_gives_the_same_page() {
    let text = "HTTP/1.0 200 OK\r\n\r\n<p>Hi</p>".as_bytes();
    for k in 0..=text.len() {
        let mut acc = Accumulator::new();
        assert_eq!(acc.on_read(&text[..k]), k > 0);
        assert_eq!(acc.on_read(&text[k..]), k < text.len());
        assert!(!acc.on_read(&[]));
        match acc.finish() {
            Ok(resp) => {
                assert_eq!(resp.status, StatusCode::Successful);
                assert!(resp.header.is_empty());
                let shown = ravenna::DisplayableResponse(Ok(resp)).to_string();
                assert_eq!(shown, "Hi", "split at {k}");
            }
            Err(e) => panic!("split at {k}: {}", e.to_string()),
        }
    }
}

#[test]
fn split_inside_a_character_is_decoded_whole() {
    let text = "HTTP/1.0 200 OK\r\n\r\nçé".as_bytes();
    let n = text.len();
    for k in [n - 1, n - 3] {
        let mut acc = Accumulator::new();
        acc.on_read(&text[..k]);
        acc.on_read(&text[k..]);
        match acc.finish() {
            Ok(resp) => assert_eq!(resp.body, "çé"),
            Err(e) => panic!("{}", e.to_string()),
        }
    }
}

#[test]
fn not_found_is_a_client_error() {
    match response_from_bytes(b"HTTP/1.0 404 Not Found\r\n\r\n") {
        Err(RequestError::NonSuccessStatus(c)) => assert_eq!(c, StatusCode::ClientError),
        _ => panic!("expected a client error"),
    }
}

#[test]
fn invalid_utf8_is_malformed() {
    match response_from_bytes(b"HTTP/1.0 200 OK\r\n\r\n\xff\xfe") {
        Err(RequestError::MalformedResponse(m)) => assert_eq!(m, "invalid text encoding"),
        _ => panic!("expected a malformed response"),
    }
}

#[test]
fn decodes_valid_bytes() {
    match response_from_bytes("HTTP/1.0 200 OK\r\nA: B\r\n\r\nßody".as_bytes()) {
        Ok(resp) => {
            assert_eq!(resp.body, "ßody");
            assert_eq!(resp.header.get("a").map(|v| v.as_str()), Some("b"));
        }
        Err(e) => panic!("{}", e.to_string()),
    }
}
